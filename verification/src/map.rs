//! The vdisk map: block index to content address, as a copy-on-write radix
//! tree whose nodes are ordinary blocks.
//!
//! Each node is an array of `block_size / 32` child addresses; the all-zeros
//! entry means "unmapped". Level 0 nodes are leaves whose entries are
//! data-block addresses. Updates are path copies: [`fold`] takes a batch of
//! mutations, rewrites each touched path bottom-up and returns the new root.
//! A node folded down to all zeros is not written at all, and a tree emptied
//! entirely folds to no root.

pub mod runs;

use crate::codec::{get_32, lemma_array_view_injective, same_bytes, splice, zeros};
use crate::error::{FsError, Result};
use crate::hash::{address_of, BlockHash};
use crate::store::{grew, is_zero, keeps_promises, BlockRead, BlockWrite};
use crate::table::{entries_map, entry_for, lemma_entry_value, sorted_entries, SortKey, SortedMap};
use vstd::prelude::*;

verus! {

/// Bytes of one child entry.
pub const ENTRY_LEN: u64 = 32;

/// Child entries per node.
pub open spec fn arity(bs: u32) -> int {
    bs as int / 32
}

/// The blocks `depth` levels of nodes of `epn` entries cover.
pub open spec fn reach(epn: int, depth: nat) -> int
    decreases depth,
{
    if depth == 0 {
        1
    } else {
        epn * reach(epn, (depth - 1) as nat)
    }
}

/// A tree of this depth has at least two entries per node and covers no
/// more than a word counts.
pub open spec fn sized(bs: u32, depth: nat) -> bool {
    arity(bs) >= 2 && reach(arity(bs), depth) <= u64::MAX
}

pub proof fn lemma_reach_positive(epn: int, depth: nat)
    requires
        epn >= 1,
    ensures
        reach(epn, depth) >= 1,
    decreases depth,
{
    if depth > 0 {
        lemma_reach_positive(epn, (depth - 1) as nat);
        assert(epn * reach(epn, (depth - 1) as nat) >= 1) by (nonlinear_arith)
            requires epn >= 1, reach(epn, (depth - 1) as nat) >= 1;
    }
}

pub proof fn lemma_reach_grows(epn: int, depth: nat)
    requires
        epn >= 1,
        depth > 0,
    ensures
        reach(epn, (depth - 1) as nat) <= reach(epn, depth),
{
    lemma_reach_positive(epn, (depth - 1) as nat);
    assert(epn * reach(epn, (depth - 1) as nat) >= reach(epn, (depth - 1) as nat)) by (nonlinear_arith)
        requires epn >= 1, reach(epn, (depth - 1) as nat) >= 1;
}

/// Child entries per node for a pool's block size.
pub fn entries_per_node(block_size: u32) -> (epn: u64)
    ensures
        epn == arity(block_size),
{
    block_size as u64 / ENTRY_LEN
}

/// The smallest depth whose reach covers `capacity` blocks. Always at least
/// 1: an empty vdisk still has a shape.
pub fn depth_for(capacity: u64, entries_per_node: u64) -> (depth: u32)
    requires
        entries_per_node >= 2,
    ensures
        depth == depth_of(capacity, entries_per_node as int),
        depth >= 1,
        capacity <= reach(entries_per_node as int, depth as nat),
        depth == 1 || reach(entries_per_node as int, (depth - 1) as nat) < capacity,
{
    let ghost epn = entries_per_node as int;
    let mut depth: u32 = 1;
    let mut covered: u128 = entries_per_node as u128;
    proof {
        assert(reach(epn, 1) == epn * reach(epn, 0));
        assert(epn * 1 == epn);
        reveal_with_fuel(exp2, 2);
    }
    while covered < capacity as u128
        invariant
            epn == entries_per_node >= 2,
            1 <= depth,
            covered == reach(epn, depth as nat),
            covered >= depth,
            depth == 1 || reach(epn, (depth - 1) as nat) < capacity,
            depth <= 64,
            exp2(depth as nat) <= covered,
        decreases 65 - depth,
    {
        proof {
            assert(covered as int * epn >= covered as int * 2) by (nonlinear_arith)
                requires epn >= 2, covered >= 1;
            assert(covered as int * epn <= 0xFFFF_FFFF_FFFF_FFFF * 0xFFFF_FFFF_FFFF_FFFF) by (nonlinear_arith)
                requires 0 <= epn <= 0xFFFF_FFFF_FFFF_FFFF, 0 <= covered <= 0xFFFF_FFFF_FFFF_FFFF;
            lemma_exp2_bound(depth as nat);
            assert(reach(epn, (depth + 1) as nat) == epn * reach(epn, depth as nat));
            assert(epn * covered == covered * epn) by (nonlinear_arith);
        }
        covered = covered * entries_per_node as u128;
        depth = depth + 1;
    }
    proof {
        lemma_depth_unique(capacity, epn, depth as nat);
    }
    depth
}

/// Powers of two, for bounding depths.
spec fn exp2(n: nat) -> nat
    decreases n,
{
    if n == 0 {
        1
    } else {
        2 * exp2((n - 1) as nat)
    }
}

proof fn lemma_exp2_add(a: nat, b: nat)
    ensures
        exp2(a + b) == exp2(a) * exp2(b),
        exp2(a) >= 1,
    decreases a,
{
    if a == 0 {
        assert(exp2(0) == 1);
        assert(1 * exp2(b) == exp2(b)) by (nonlinear_arith);
    } else {
        lemma_exp2_add((a - 1) as nat, b);
        let x = exp2((a - 1) as nat);
        let y = exp2(b);
        assert(exp2((a + b) as nat) == 2 * exp2(((a - 1) + b) as nat));
        assert(2 * (x * y) == (2 * x) * y) by (nonlinear_arith);
    }
}

proof fn lemma_exp2_bound(n: nat)
    ensures
        exp2(n) >= 1,
        n >= 64 ==> exp2(n) > u64::MAX,
    decreases n,
{
    if n > 64 {
        lemma_exp2_bound((n - 1) as nat);
    } else if n == 64 {
        reveal_with_fuel(exp2, 17);
        assert(exp2(16) == 65536);
        lemma_exp2_add(16, 16);
        lemma_exp2_add(32, 32);
        assert(exp2(32) == 0x1_0000_0000);
        assert(exp2(64) == 0x1_0000_0000 * 0x1_0000_0000);
    } else if n > 0 {
        lemma_exp2_bound((n - 1) as nat);
    }
}

/// The smallest depth of at least 1 whose reach covers `capacity`.
pub open spec fn depth_of(capacity: u64, epn: int) -> nat {
    choose|depth: nat| #[trigger] is_depth(capacity, epn, depth)
}

pub open spec fn is_depth(capacity: u64, epn: int, depth: nat) -> bool {
    &&& depth >= 1
    &&& capacity <= reach(epn, depth)
    &&& depth == 1 || reach(epn, (depth - 1) as nat) < capacity
}

proof fn lemma_reach_monotone(epn: int, a: nat, b: nat)
    requires
        epn >= 1,
        a <= b,
    ensures
        reach(epn, a) <= reach(epn, b),
    decreases b - a,
{
    if a < b {
        lemma_reach_monotone(epn, a, (b - 1) as nat);
        lemma_reach_grows(epn, b);
    }
}

/// No two depths are both the smallest.
pub proof fn lemma_depth_unique(capacity: u64, epn: int, depth: nat)
    requires
        epn >= 1,
        is_depth(capacity, epn, depth),
    ensures
        depth_of(capacity, epn) == depth,
{
    let other = depth_of(capacity, epn);
    assert(is_depth(capacity, epn, other));
    if other < depth {
        lemma_reach_monotone(epn, other, (depth - 1) as nat);
    } else if depth < other {
        lemma_reach_monotone(epn, depth, (other - 1) as nat);
    }
}

/// Some depth covers any capacity.
pub proof fn lemma_depth_exists(capacity: u64, epn: int)
    requires
        epn >= 2,
    ensures
        is_depth(capacity, epn, depth_of(capacity, epn)),
{
    lemma_exp2_bound(64);
    lemma_reach_exp2(epn, 64);
    lemma_depth_search(capacity, epn, 64);
}

proof fn lemma_reach_exp2(epn: int, n: nat)
    requires
        epn >= 2,
    ensures
        reach(epn, n) >= exp2(n),
    decreases n,
{
    if n > 0 {
        lemma_reach_exp2(epn, (n - 1) as nat);
        let below = reach(epn, (n - 1) as nat);
        assert(epn * below >= 2 * below) by (nonlinear_arith)
            requires epn >= 2, below >= 0;
    }
}

proof fn lemma_depth_search(capacity: u64, epn: int, n: nat)
    requires
        epn >= 2,
        n >= 1,
        capacity <= reach(epn, n),
    ensures
        is_depth(capacity, epn, depth_of(capacity, epn)),
    decreases n,
{
    if n == 1 || reach(epn, (n - 1) as nat) < capacity {
        assert(is_depth(capacity, epn, n));
    } else {
        lemma_depth_search(capacity, epn, (n - 1) as nat);
    }
}

/// The depth that covers a vdisk keeps its tree within a word.
pub proof fn lemma_depth_sized(capacity: u64, bs: u32, depth: nat)
    requires
        arity(bs) >= 2,
        is_depth(capacity, arity(bs), depth),
        capacity <= u64::MAX / (bs as u64) + 1,
    ensures
        sized(bs, depth),
{
    let epn = arity(bs);
    if depth == 1 {
        assert(reach(epn, 1) == epn * reach(epn, 0));
        assert(epn * 1 == epn);
    } else {
        let below = reach(epn, (depth - 1) as nat);
        let q = u64::MAX as int / bs as int;
        assert(q * bs <= u64::MAX) by (nonlinear_arith) requires q == u64::MAX as int / bs as int, bs > 0;
        assert(epn * 32 <= bs);
        assert(epn * below <= epn * (q + 1)) by (nonlinear_arith) requires below <= q + 1, epn >= 0;
        assert(epn * (q + 1) == epn * q + epn) by (nonlinear_arith);
        assert(32 * (epn * q) <= q * bs) by (nonlinear_arith) requires epn * 32 <= bs, q >= 0;
    }
}

/// The address whose bytes are `s`.
pub open spec fn hash_of_bytes(s: Seq<u8>) -> BlockHash {
    choose|h: BlockHash| h.0@ == s
}

pub proof fn lemma_hash_of_bytes(h: BlockHash)
    ensures
        hash_of_bytes(h.0@) == h,
{
    let other = hash_of_bytes(h.0@);
    assert(other.0@ == h.0@);
    lemma_array_view_injective(other.0, h.0);
}

/// The bytes of one entry of a node.
pub open spec fn entry_slice(node: Seq<u8>, slot: int) -> Seq<u8> {
    node.subrange(slot * 32, slot * 32 + 32)
}

/// What an entry maps to.
pub open spec fn entry_of(node: Seq<u8>, slot: int) -> Option<BlockHash> {
    if entry_slice(node, slot) == zeros(32) {
        None
    } else {
        Some(hash_of_bytes(entry_slice(node, slot)))
    }
}

/// An entry's bytes.
pub open spec fn entry_bytes(v: Option<BlockHash>) -> Seq<u8> {
    match v {
        Some(h) => h.0@,
        None => zeros(32),
    }
}

/// A mapping as a node records it: to the all-zeros address is to nothing.
pub open spec fn recorded(v: Option<BlockHash>) -> Option<BlockHash> {
    match v {
        Some(h) => if is_zero(h) {
            None
        } else {
            Some(h)
        },
        None => None,
    }
}

/// The store can produce a node of the right shape.
pub open spec fn node_ok(m: Map<BlockHash, Seq<u8>>, bs: u32, h: BlockHash) -> bool {
    m.contains_key(h) && m[h].len() == bs
}

/// The entry an index takes in a node `level` levels above the leaves.
pub open spec fn slot_of(bs: u32, level: nat, k: u64) -> int {
    (k as int / reach(arity(bs), level)) % arity(bs)
}

/// Where an index leads, `levels` nodes down from `hash`. The outer `None`
/// is a node that cannot be produced; the inner one is "unmapped".
pub open spec fn tree_at(
    m: Map<BlockHash, Seq<u8>>,
    bs: u32,
    hash: BlockHash,
    levels: nat,
    k: u64,
) -> Option<Option<BlockHash>>
    decreases levels,
{
    if levels == 0 {
        Some(Some(hash))
    } else if !node_ok(m, bs, hash) {
        None
    } else {
        match entry_of(m[hash], slot_of(bs, (levels - 1) as nat, k)) {
            Some(child) => tree_at(m, bs, child, (levels - 1) as nat, k),
            None => Some(None),
        }
    }
}

/// The same from a root that may be missing: an empty tree maps nothing.
pub open spec fn tree_get(
    m: Map<BlockHash, Seq<u8>>,
    bs: u32,
    root: Option<BlockHash>,
    levels: nat,
    k: u64,
) -> Option<Option<BlockHash>> {
    match root {
        Some(h) => tree_at(m, bs, h, levels, k),
        None => Some(None),
    }
}

/// `n` has everything `m` has, unchanged.
pub open spec fn extends(m: Map<BlockHash, Seq<u8>>, n: Map<BlockHash, Seq<u8>>) -> bool {
    forall|h: BlockHash| #[trigger] m.contains_key(h) ==> n.contains_key(h) && n[h] == m[h]
}

/// What leads somewhere in a store leads there in every store that has
/// grown from it.
pub proof fn lemma_tree_grows(
    m: Map<BlockHash, Seq<u8>>,
    n: Map<BlockHash, Seq<u8>>,
    bs: u32,
    hash: BlockHash,
    levels: nat,
    k: u64,
)
    requires
        extends(m, n),
        tree_at(m, bs, hash, levels, k) is Some,
    ensures
        tree_at(n, bs, hash, levels, k) == tree_at(m, bs, hash, levels, k),
    decreases levels,
{
    if levels > 0 {
        assert(m.contains_key(hash));
        if let Some(child) = entry_of(m[hash], slot_of(bs, (levels - 1) as nat, k)) {
            lemma_tree_grows(m, n, bs, child, (levels - 1) as nat, k);
        }
    }
}

/// `epn` to the `level`.
fn stride(epn: u64, level: u32) -> (r: u64)
    requires
        epn >= 1,
        reach(epn as int, level as nat) <= u64::MAX,
    ensures
        r == reach(epn as int, level as nat),
        r >= 1,
    decreases level,
{
    if level == 0 {
        1
    } else {
        proof {
            lemma_reach_grows(epn as int, level as nat);
            lemma_reach_positive(epn as int, level as nat);
        }
        let below: u64 = stride(epn, level - 1);
        epn * below
    }
}

fn load_node<S: BlockRead>(store: &S, tier: u8, hash: &BlockHash) -> (r: Result<Vec<u8>>)
    requires
        store.ready(),
    ensures
        r matches Ok(node) ==> node_ok(store.shelf(tier), store.unit(), *hash) && node@ == store.shelf(
            tier,
        )[*hash],
        store.steady() ==> (r is Ok <==> node_ok(store.shelf(tier), store.unit(), *hash)),
        store.steady() && r is Err ==> r->Err_0 is Corrupt,
{
    let bs: u32 = store.block_size();
    match store.get(tier, hash) {
        Ok(Some(node)) => if node.len() as u64 == bs as u64 {
            Ok(node)
        } else {
            Err(FsError::Corrupt("a map node has the wrong shape"))
        },
        Ok(None) => Err(FsError::Corrupt("a map node vanished from the store")),
        Err(e) => Err(e),
    }
}

fn entry(node: &Vec<u8>, slot: u64) -> (r: Option<BlockHash>)
    requires
        slot * 32 + 32 <= node@.len(),
    ensures
        r == entry_of(node@, slot as int),
{
    let _len: usize = node.len();
    let at: usize = slot as usize * 32;
    let bytes = get_32(node.as_slice(), at);
    assert(bytes@ == entry_slice(node@, slot as int));
    let blank = [0u8; 32];
    assert(blank@ =~= zeros(32));
    if same_bytes(bytes.as_slice(), blank.as_slice()) {
        None
    } else {
        proof {
            lemma_hash_of_bytes(BlockHash(bytes));
        }
        Some(BlockHash(bytes))
    }
}

fn set_entry(node: &mut Vec<u8>, slot: u64, value: Option<BlockHash>)
    requires
        slot * 32 + 32 <= old(node)@.len(),
    ensures
        final(node)@ == splice(old(node)@, slot * 32, entry_bytes(value)),
{
    let _len: usize = node.len();
    let at: usize = slot as usize * 32;
    let bytes = match value {
        Some(h) => h.0,
        None => [0u8; 32],
    };
    assert(bytes@ =~= entry_bytes(value));
    let mut i: usize = 0;
    while i < 32
        invariant
            i <= 32,
            at + 32 <= node@.len() == old(node)@.len() == _len,
            forall|k: int| 0 <= k < node@.len() ==> #[trigger] node@[k] == if at <= k < at + i {
                bytes@[k - at]
            } else {
                old(node)@[k]
            },
        decreases 32 - i,
    {
        node.set(at + i, bytes[i]);
        i += 1;
    }
    assert(node@ =~= splice(old(node)@, slot * 32, entry_bytes(value)));
}

proof fn lemma_slot_bounds(bs: u32, level: nat, k: u64)
    requires
        arity(bs) >= 1,
    ensures
        0 <= slot_of(bs, level, k) < arity(bs),
        slot_of(bs, level, k) * 32 + 32 <= bs,
{
    lemma_reach_positive(arity(bs), level);
    let q = k as int / reach(arity(bs), level);
    assert(q >= 0) by (nonlinear_arith)
        requires q == k as int / reach(arity(bs), level), reach(arity(bs), level) >= 1, k >= 0;
}

/// Resolve one block index through the tree. `Ok(None)` is "unmapped": a
/// region never written, which the consumer renders as zeros.
pub fn lookup<S: BlockRead>(store: &S, tier: u8, root: &BlockHash, depth: u32, index: u64) -> (r: Result<
    Option<BlockHash>,
>)
    requires
        store.ready(),
        sized(store.unit(), depth as nat),
    ensures
        r matches Ok(found) ==> tree_at(store.shelf(tier), store.unit(), *root, depth as nat, index) == Some(found),
        store.steady() ==> (r is Ok <==> tree_at(store.shelf(tier), store.unit(), *root, depth as nat, index) is Some),
        store.steady() && r is Err ==> r->Err_0 is Corrupt,
{
    let bs: u32 = store.block_size();
    let epn: u64 = entries_per_node(bs);
    let mut hash = *root;
    let mut levels: u32 = depth;
    let ghost m = store.shelf(tier);
    while levels > 0
        invariant
            store.ready(),
            bs == store.unit(),
            epn == arity(bs),
            m == store.shelf(tier),
            sized(bs, levels as nat),
            tree_at(m, bs, *root, depth as nat, index) == tree_at(m, bs, hash, levels as nat, index),
        decreases levels,
    {
        let node = load_node(store, tier, &hash)?;
        levels = levels - 1;
        proof {
            lemma_reach_grows(epn as int, (levels + 1) as nat);
            lemma_slot_bounds(bs, levels as nat, index);
        }
        let slot: u64 = (index / stride(epn, levels)) % epn;
        match entry(&node, slot) {
            Some(child) => {
                hash = child;
            },
            None => {
                return Ok(None);
            },
        }
    }
    Ok(Some(hash))
}

// ---------------------------------------------------------------------
// Folding mutations into a tree

/// Mutations of a tree: `Some` maps an index, `None` unmaps it.
pub type Mutations = Map<u64, Option<BlockHash>>;

/// The mutations that go through one entry of a node.
pub open spec fn through(bs: u32, level: nat, muts: Mutations, slot: int) -> Mutations {
    Map::new(
        |k: u64| muts.contains_key(k) && slot_of(bs, level, k) == slot,
        |k: u64| muts[k],
    )
}

/// Some mutation goes through the entry.
pub open spec fn touched(bs: u32, level: nat, muts: Mutations, slot: int) -> bool {
    exists|k: u64| #[trigger] muts.contains_key(k) && slot_of(bs, level, k) == slot
}

/// The node a fold starts from: the stored one, or one of nothing.
pub open spec fn base_node(m: Map<BlockHash, Seq<u8>>, bs: u32, at: Option<BlockHash>) -> Seq<u8> {
    match at {
        Some(h) => m[h],
        None => zeros(bs as nat),
    }
}

/// The value of some mutation.
pub open spec fn any_value(muts: Mutations) -> Option<BlockHash> {
    muts[choose|k: u64| #[trigger] muts.contains_key(k)]
}

/// What a touched entry becomes.
pub open spec fn folded_entry(
    m: Map<BlockHash, Seq<u8>>,
    bs: u32,
    at: Option<BlockHash>,
    level: nat,
    muts: Mutations,
    slot: int,
) -> Option<BlockHash>
    decreases level, 0nat,
{
    if level == 0 {
        any_value(through(bs, 0, muts, slot))
    } else {
        folded_root(m, bs, entry_of(base_node(m, bs, at), slot), (level - 1) as nat, through(bs, level, muts, slot))
    }
}

/// The node a fold writes: touched entries rewritten, the rest as they were.
pub open spec fn folded_node(
    m: Map<BlockHash, Seq<u8>>,
    bs: u32,
    at: Option<BlockHash>,
    level: nat,
    muts: Mutations,
) -> Seq<u8>
    decreases level, 1nat,
{
    Seq::new(
        bs as nat,
        |i: int| if i / 32 < arity(bs) && touched(bs, level, muts, i / 32) {
            entry_bytes(folded_entry(m, bs, at, level, muts, i / 32))[i % 32]
        } else {
            base_node(m, bs, at)[i]
        },
    )
}

/// The root a fold gives back: the written node's address, or nothing for a
/// node of nothing.
pub open spec fn folded_root(
    m: Map<BlockHash, Seq<u8>>,
    bs: u32,
    at: Option<BlockHash>,
    level: nat,
    muts: Mutations,
) -> Option<BlockHash>
    decreases level, 2nat,
{
    let node = folded_node(m, bs, at, level, muts);
    if node == zeros(bs as nat) {
        None
    } else {
        Some(address_of(node))
    }
}

/// Every node the mutations go through can be produced.
pub open spec fn path_ok(
    m: Map<BlockHash, Seq<u8>>,
    bs: u32,
    at: Option<BlockHash>,
    level: nat,
    muts: Mutations,
) -> bool
    decreases level,
{
    &&& at matches Some(h) ==> node_ok(m, bs, h)
    &&& level > 0 ==> forall|slot: int| #[trigger]
        touched(bs, level, muts, slot) ==> path_ok(
            m,
            bs,
            entry_of(base_node(m, bs, at), slot),
            (level - 1) as nat,
            through(bs, level, muts, slot),
        )
}

/// Every node the fold writes is in the store, under an address that is not
/// all zeros.
pub open spec fn written(
    m: Map<BlockHash, Seq<u8>>,
    bs: u32,
    at: Option<BlockHash>,
    level: nat,
    muts: Mutations,
) -> bool
    decreases level, 1nat,
{
    let node = folded_node(m, bs, at, level, muts);
    &&& node != zeros(bs as nat) ==> m.contains_key(address_of(node)) && m[address_of(node)] == node && !is_zero(
        address_of(node),
    )
    &&& written_below(m, bs, at, level, muts)
}

/// The same of the nodes below.
pub open spec fn written_below(
    m: Map<BlockHash, Seq<u8>>,
    bs: u32,
    at: Option<BlockHash>,
    level: nat,
    muts: Mutations,
) -> bool
    decreases level, 0nat,
{
    level > 0 ==> forall|slot: int| #[trigger]
        touched(bs, level, muts, slot) ==> written(
            m,
            bs,
            entry_of(base_node(m, bs, at), slot),
            (level - 1) as nat,
            through(bs, level, muts, slot),
        )
}

/// A fold reads nothing but the nodes on its path, so it comes out the same
/// in every store that has grown.
proof fn lemma_fold_grows(
    m: Map<BlockHash, Seq<u8>>,
    n: Map<BlockHash, Seq<u8>>,
    bs: u32,
    at: Option<BlockHash>,
    level: nat,
    muts: Mutations,
)
    requires
        extends(m, n),
        path_ok(m, bs, at, level, muts),
    ensures
        path_ok(n, bs, at, level, muts),
        folded_node(n, bs, at, level, muts) == folded_node(m, bs, at, level, muts),
        folded_root(n, bs, at, level, muts) == folded_root(m, bs, at, level, muts),
        written(m, bs, at, level, muts) ==> written(n, bs, at, level, muts),
        written_below(m, bs, at, level, muts) ==> written_below(n, bs, at, level, muts),
    decreases level,
{
    if let Some(h) = at {
        assert(m.contains_key(h));
    }
    assert(base_node(n, bs, at) == base_node(m, bs, at));
    if level > 0 {
        assert forall|slot: int| #[trigger] touched(bs, level, muts, slot) implies path_ok(
            n,
            bs,
            entry_of(base_node(n, bs, at), slot),
            (level - 1) as nat,
            through(bs, level, muts, slot),
        ) && folded_entry(n, bs, at, level, muts, slot) == folded_entry(m, bs, at, level, muts, slot) && (written(m,
            bs,
            entry_of(base_node(m, bs, at), slot),
            (level - 1) as nat,
            through(bs, level, muts, slot),
        ) ==> written(n,
            bs,
            entry_of(base_node(n, bs, at), slot),
            (level - 1) as nat,
            through(bs, level, muts, slot),
        )) by {
            lemma_fold_grows(
                m,
                n,
                bs,
                entry_of(base_node(m, bs, at), slot),
                (level - 1) as nat,
                through(bs, level, muts, slot),
            );
        }
    }
    assert(folded_node(n, bs, at, level, muts) =~= folded_node(m, bs, at, level, muts));
    let node = folded_node(m, bs, at, level, muts);
    if written(m, bs, at, level, muts) && node != zeros(bs as nat) {
        assert(m.contains_key(address_of(node)));
    }
}

/// Every mutation lies under the same node at `level`.
pub open spec fn under_one(bs: u32, level: nat, muts: Mutations, q: int) -> bool {
    forall|k: u64| #[trigger] muts.contains_key(k) ==> k as int / reach(arity(bs), (level + 1) as nat) == q
}

/// The digits of an index: the node it is under, the entry in it, the rest.
proof fn lemma_digits(bs: u32, level: nat, k: u64, q: int)
    requires
        arity(bs) >= 1,
        k as int / reach(arity(bs), (level + 1) as nat) == q,
    ensures
        k as int / reach(arity(bs), level) == q * arity(bs) + slot_of(bs, level, k),
{
    let epn = arity(bs);
    let s = reach(epn, level);
    lemma_reach_positive(epn, level);
    assert(reach(epn, (level + 1) as nat) == epn * s);
    vstd::arithmetic::div_mod::lemma_div_denominator(k as int, s, epn);
    assert(s * epn == epn * s) by (nonlinear_arith);
    vstd::arithmetic::div_mod::lemma_fundamental_div_mod(k as int / s, epn);
    assert(epn * q == q * epn) by (nonlinear_arith);
}

/// What the written node says of an entry.
proof fn lemma_folded_entry(
    m: Map<BlockHash, Seq<u8>>,
    bs: u32,
    at: Option<BlockHash>,
    level: nat,
    muts: Mutations,
    slot: int,
)
    requires
        0 <= slot < arity(bs),
        base_node(m, bs, at).len() == bs,
    ensures
        entry_of(folded_node(m, bs, at, level, muts), slot) == if touched(bs, level, muts, slot) {
            recorded(folded_entry(m, bs, at, level, muts, slot))
        } else {
            entry_of(base_node(m, bs, at), slot)
        },
{
    let base = base_node(m, bs, at);
    let node = folded_node(m, bs, at, level, muts);
    let cut = entry_slice(node, slot);
    let v = folded_entry(m, bs, at, level, muts, slot);
    let goal = if touched(bs, level, muts, slot) { entry_bytes(v) } else { entry_slice(base, slot) };
    assert forall|j: int| 0 <= j < 32 implies cut[j] == goal[j] by {
        assert((slot * 32 + j) / 32 == slot && (slot * 32 + j) % 32 == j);
    }
    assert(goal.len() == 32);
    assert(cut =~= goal);
    if touched(bs, level, muts, slot) {
        if let Some(h) = v {
            lemma_hash_of_bytes(h);
        }
    }
}

/// A folded tree leads where the mutations say, and elsewhere where the
/// tree led before.
pub proof fn law_fold_then_lookup(
    m: Map<BlockHash, Seq<u8>>,
    bs: u32,
    at: Option<BlockHash>,
    level: nat,
    muts: Mutations,
    q: int,
    k: u64,
)
    requires
        arity(bs) >= 1,
        path_ok(m, bs, at, level, muts),
        written(m, bs, at, level, muts),
        under_one(bs, level, muts, q),
        k as int / reach(arity(bs), (level + 1) as nat) == q,
    ensures
        tree_get(m, bs, folded_root(m, bs, at, level, muts), level + 1, k) == if muts.contains_key(k) {
            Some(recorded(muts[k]))
        } else {
            tree_get(m, bs, at, level + 1, k)
        },
    decreases level,
{
    let epn = arity(bs);
    let slot = slot_of(bs, level, k);
    let base = base_node(m, bs, at);
    let node = folded_node(m, bs, at, level, muts);
    lemma_slot_bounds(bs, level, k);
    assert(base.len() == bs);
    let touches = touched(bs, level, muts, slot);
    lemma_folded_entry(m, bs, at, level, muts, slot);
    assert(tree_get(m, bs, at, level + 1, k) == match entry_of(base, slot) {
        Some(child) => tree_at(m, bs, child, level, k),
        None => Some(None),
    }) by {
        if at is None {
            assert(entry_slice(base, slot) =~= zeros(32));
        }
    }
    assert(tree_get(m, bs, folded_root(m, bs, at, level, muts), level + 1, k) == match entry_of(node, slot) {
        Some(child) => tree_at(m, bs, child, level, k),
        None => Some(None),
    }) by {
        if node == zeros(bs as nat) {
            assert(entry_slice(node, slot) =~= zeros(32));
        } else {
            assert(node.len() == bs);
        }
    }
    if touches {
        let v = folded_entry(m, bs, at, level, muts, slot);
        if level == 0 {
            let sub = through(bs, 0, muts, slot);
            let any = choose|c: u64| #[trigger] muts.contains_key(c) && slot_of(bs, 0, c) == slot;
            assert(sub.contains_key(any));
            let chosen = choose|c: u64| #[trigger] sub.contains_key(c);
            lemma_digits(bs, 0, k, q);
            lemma_digits(bs, 0, chosen, q);
            assert(reach(epn, 0) == 1);
            assert(chosen == k);
        } else {
            let sub = through(bs, level, muts, slot);
            let below = (level - 1) as nat;
            assert(under_one(bs, below, sub, q * epn + slot)) by {
                assert forall|c: u64| #[trigger] sub.contains_key(c) implies c as int / reach(epn, level) == q * epn + slot by {
                    assert(muts.contains_key(c));
                    lemma_digits(bs, level, c, q);
                }
            }
            lemma_digits(bs, level, k, q);
            law_fold_then_lookup(m, bs, entry_of(base, slot), below, sub, q * epn + slot, k);
            assert(sub.contains_key(k) == muts.contains_key(k));
            assert(written(m, bs, entry_of(base, slot), below, sub));
            if let Some(h) = v {
                assert(!is_zero(h));
            }
        }
    } else {
        assert(!muts.contains_key(k));
    }
}


/// What a run of puts in one tier leaves.
pub open spec fn progressed<S: BlockWrite>(before: &S, after: &S, tier: u8) -> bool {
    &&& after.ready()
    &&& after.unit() == before.unit()
    &&& after.steady() == before.steady()
    &&& after.frame() == before.frame()
    &&& before.recoverable() ==> after.recoverable()
    &&& after.follows(before)
    &&& forall|t: u8| t != tier ==> after.holds(t) == before.holds(t) && after.shelf(t) == before.shelf(t)
        && after.promised(t) == before.promised(t)
    &&& grew(before.holds(tier), before.shelf(tier), after.holds(tier), after.shelf(tier))
    &&& before.promised(tier).subset_of(after.promised(tier))
    &&& forall|t: u8| #[trigger] after.carries(t) == before.carries(t)
}

/// A store that keeps all its promises kept those it had made before.
pub proof fn lemma_promises_kept_before<S: BlockWrite>(before: &S, after: &S, tier: u8)
    requires
        before.ready(),
        progressed(before, after, tier),
        keeps_promises(after.shelf(tier), after.promised(tier)),
    ensures
        keeps_promises(before.shelf(tier), before.promised(tier)),
{
    before.lemma_promised_held(tier);
    assert forall|h: BlockHash, p: Seq<u8>| #[trigger] before.promised(tier).contains((h, p)) implies before.shelf(tier).contains_key(h)
        && before.shelf(tier)[h] == p && !is_zero(h) by {
        assert(after.promised(tier).contains((h, p)));
        assert(after.shelf(tier).contains_key(h));
    }
}

/// All mutations of a stretch lie under the same node at `level`.
spec fn same_node(bs: u32, level: nat, s: Seq<(u64, Option<BlockHash>)>, lo: int, hi: int) -> bool {
    forall|i: int, j: int|
        lo <= i < hi && lo <= j < hi ==> (#[trigger] s[i]).0 as int / reach(arity(bs), (level + 1) as nat) == (#[trigger] s[j]).0
            as int / reach(arity(bs), (level + 1) as nat)
}

/// A stretch of sorted mutations as a map.
spec fn stretch(s: Seq<(u64, Option<BlockHash>)>, lo: int, hi: int) -> Mutations {
    entries_map(s.subrange(lo, hi))
}

proof fn lemma_stretch(s: Seq<(u64, Option<BlockHash>)>, lo: int, hi: int)
    requires
        sorted_entries(s),
        0 <= lo <= hi <= s.len(),
    ensures
        forall|i: int| lo <= i < hi ==> stretch(s, lo, hi).contains_key((#[trigger] s[i]).0) && stretch(s, lo, hi)[s[i].0]
            == s[i].1,
        forall|k: u64| #[trigger] stretch(s, lo, hi).contains_key(k) ==> exists|i: int| lo <= i < hi && (#[trigger] s[i]).0 == k,
{
    let t = s.subrange(lo, hi);
    assert forall|i: int| lo <= i < hi implies stretch(s, lo, hi).contains_key((#[trigger] s[i]).0) && stretch(s, lo, hi)[s[i].0]
            == s[i].1 by {
        assert(t[i - lo] == s[i]);
        lemma_entry_value(t, i - lo);
    }
    assert forall|k: u64| #[trigger] stretch(s, lo, hi).contains_key(k) implies exists|i: int| lo <= i < hi && (#[trigger] s[i]).0 == k by {
        let i = choose|i: int| #[trigger] entry_for(t, k, i);
        assert(s[lo + i].0 == k);
    }
}

/// A further group of mutations, all through one entry no earlier mutation
/// goes through.
proof fn lemma_next_group(bs: u32, level: nat, s: Seq<(u64, Option<BlockHash>)>, lo: int, i: int, j: int, g: int)
    requires
        arity(bs) >= 1,
        sorted_entries(s),
        0 <= lo <= i < j <= s.len(),
        same_node(bs, level, s, lo, j),
        forall|x: int| lo <= x < i ==> (#[trigger] s[x]).0 as int / reach(arity(bs), level) < g,
        forall|x: int| i <= x < j ==> (#[trigger] s[x]).0 as int / reach(arity(bs), level) == g,
    ensures
        ({
            let slot = g % arity(bs);
            let pre = stretch(s, lo, i);
            let all = stretch(s, lo, j);
            &&& through(bs, level, all, slot) == stretch(s, i, j)
            &&& touched(bs, level, all, slot)
            &&& !touched(bs, level, pre, slot)
            &&& forall|x: int| x != slot ==> #[trigger] through(bs, level, all, x) == through(bs, level, pre, x)
            &&& forall|x: int| x != slot ==> #[trigger] touched(bs, level, all, x) == touched(bs, level, pre, x)
        }),
{
    let epn = arity(bs);
    let slot = g % epn;
    let pre = stretch(s, lo, i);
    let all = stretch(s, lo, j);
    let run = stretch(s, i, j);
    let q = s[i].0 as int / reach(epn, (level + 1) as nat);
    lemma_stretch(s, lo, i);
    lemma_stretch(s, lo, j);
    lemma_stretch(s, i, j);
    lemma_digits(bs, level, s[i].0, q);
    assert(slot_of(bs, level, s[i].0) == slot);
    assert forall|x: int| lo <= x < i implies slot_of(bs, level, (#[trigger] s[x]).0) != slot by {
        assert(s[x].0 as int / reach(epn, (level + 1) as nat) == q);
        lemma_digits(bs, level, s[x].0, q);
    }
    assert forall|k: u64| all.contains_key(k) == (pre.contains_key(k) || run.contains_key(k)) by {
        if all.contains_key(k) {
            let x = choose|x: int| lo <= x < j && (#[trigger] s[x]).0 == k;
            if x < i {
                assert(pre.contains_key(s[x].0));
            } else {
                assert(run.contains_key(s[x].0));
            }
        }
        if pre.contains_key(k) {
            let x = choose|x: int| lo <= x < i && (#[trigger] s[x]).0 == k;
            assert(all.contains_key(s[x].0));
        }
        if run.contains_key(k) {
            let x = choose|x: int| i <= x < j && (#[trigger] s[x]).0 == k;
            assert(all.contains_key(s[x].0));
        }
    }
    assert forall|k: u64| #[trigger] pre.contains_key(k) implies all[k] == pre[k] && slot_of(bs, level, k) != slot by {
        let x = choose|x: int| lo <= x < i && (#[trigger] s[x]).0 == k;
        assert(all[s[x].0] == s[x].1);
        assert(pre[s[x].0] == s[x].1);
    }
    assert forall|k: u64| #[trigger] run.contains_key(k) implies all[k] == run[k] && slot_of(bs, level, k) == slot by {
        let x = choose|x: int| i <= x < j && (#[trigger] s[x]).0 == k;
        assert(all[s[x].0] == s[x].1);
        assert(run[s[x].0] == s[x].1);
    }
    assert(through(bs, level, all, slot) =~= run);
    assert forall|x: int| x != slot implies #[trigger] through(bs, level, all, x) == through(bs, level, pre, x) by {
        assert(through(bs, level, all, x) =~= through(bs, level, pre, x));
    }
    assert(all.contains_key(s[i].0));
    assert forall|x: int| x != slot implies #[trigger] touched(bs, level, all, x) == touched(bs, level, pre, x) by {
        if touched(bs, level, all, x) {
            let k = choose|k: u64| #[trigger] all.contains_key(k) && slot_of(bs, level, k) == x;
            assert(pre.contains_key(k));
        }
        if touched(bs, level, pre, x) {
            let k = choose|k: u64| #[trigger] pre.contains_key(k) && slot_of(bs, level, k) == x;
            assert(all.contains_key(k));
        }
    }
}

/// Rewriting one entry takes the node folded so far to the node folded with
/// one more group.
proof fn lemma_fold_step(
    m: Map<BlockHash, Seq<u8>>,
    bs: u32,
    at: Option<BlockHash>,
    level: nat,
    pre: Mutations,
    all: Mutations,
    slot: int,
    v: Option<BlockHash>,
)
    requires
        0 <= slot < arity(bs),
        touched(bs, level, all, slot),
        forall|x: int| x != slot ==> #[trigger] through(bs, level, all, x) == through(bs, level, pre, x),
        forall|x: int| x != slot ==> #[trigger] touched(bs, level, all, x) == touched(bs, level, pre, x),
        v == folded_entry(m, bs, at, level, all, slot),
    ensures
        folded_node(m, bs, at, level, all) == splice(folded_node(m, bs, at, level, pre), slot * 32, entry_bytes(v)),
{
    let a = folded_node(m, bs, at, level, all);
    let p = folded_node(m, bs, at, level, pre);
    let b = splice(p, slot * 32, entry_bytes(v));
    assert forall|i: int| 0 <= i < a.len() implies a[i] == b[i] by {
        let x = i / 32;
        if x == slot {
            assert(slot * 32 <= i < slot * 32 + 32 && i % 32 == i - slot * 32);
        } else {
            assert(!(slot * 32 <= i < slot * 32 + 32));
            assert(touched(bs, level, all, x) == touched(bs, level, pre, x));
            assert(through(bs, level, all, x) == through(bs, level, pre, x));
            assert(folded_entry(m, bs, at, level, all, x) == folded_entry(m, bs, at, level, pre, x));
        }
    }
    assert(a =~= b);
}

fn all_zero(node: &Vec<u8>) -> (r: bool)
    ensures
        r == (node@ == zeros(node@.len())),
{
    let mut i: usize = 0;
    while i < node.len()
        invariant
            i <= node@.len(),
            forall|k: int| 0 <= k < i ==> node@[k] == 0,
        decreases node@.len() - i,
    {
        if node[i] != 0 {
            assert(zeros(node@.len())[i as int] == 0);
            return false;
        }
        i += 1;
    }
    assert(node@ =~= zeros(node@.len()));
    true
}

/// A store without room for a block of `len` bytes.
pub open spec fn cramped<S: BlockWrite>(store: &S, tier: u8, len: nat) -> bool {
    0 < len <= store.unit() && store.crammed(tier, len)
}

/// Why a steady store refused a fold: a node on the path cannot be produced,
/// or a put found no room or no tier.
pub open spec fn fold_refused<S: BlockWrite>(
    before: &S,
    after: &S,
    tier: u8,
    at: Option<BlockHash>,
    level: nat,
    muts: Mutations,
    e: FsError,
) -> bool {
    ||| e is Corrupt && !path_ok(after.shelf(tier), before.unit(), at, level, muts)
    ||| e == FsError::Full && exists|len: nat| #[trigger] cramped(after, tier, len)
    ||| e == FsError::NoSuchTier(tier) && !before.carries(tier)
}

proof fn lemma_progressed_twice<S: BlockWrite>(a: &S, b: &S, c: &S, tier: u8)
    requires
        progressed(a, b, tier),
        progressed(b, c, tier),
    ensures
        progressed(a, c, tier),
{
    c.lemma_follows_twice(b, a);
    assert forall|t: u8| #[trigger] c.carries(t) == a.carries(t) by {
        assert(b.carries(t) == a.carries(t));
    }
}

/// A group in the middle of a stretch is what goes through its slot.
proof fn lemma_middle_group(bs: u32, level: nat, s: Seq<(u64, Option<BlockHash>)>, lo: int, i: int, j: int, hi: int, g: int)
    requires
        arity(bs) >= 1,
        sorted_entries(s),
        0 <= lo <= i < j <= hi <= s.len(),
        same_node(bs, level, s, lo, hi),
        forall|x: int| lo <= x < i ==> (#[trigger] s[x]).0 as int / reach(arity(bs), level) < g,
        forall|x: int| i <= x < j ==> (#[trigger] s[x]).0 as int / reach(arity(bs), level) == g,
        forall|x: int| j <= x < hi ==> (#[trigger] s[x]).0 as int / reach(arity(bs), level) > g,
    ensures
        through(bs, level, stretch(s, lo, hi), g % arity(bs)) == stretch(s, i, j),
        touched(bs, level, stretch(s, lo, hi), g % arity(bs)),
{
    let epn = arity(bs);
    let slot = g % epn;
    let all = stretch(s, lo, hi);
    let run = stretch(s, i, j);
    let q = s[i].0 as int / reach(epn, (level + 1) as nat);
    lemma_stretch(s, lo, hi);
    lemma_stretch(s, i, j);
    lemma_digits(bs, level, s[i].0, q);
    assert forall|x: int| lo <= x < hi implies (slot_of(bs, level, (#[trigger] s[x]).0) == slot <==> i <= x < j) by {
        assert(s[x].0 as int / reach(epn, (level + 1) as nat) == q);
        lemma_digits(bs, level, s[x].0, q);
    }
    assert forall|k: u64| #[trigger] run.contains_key(k) implies all.contains_key(k) && all[k] == run[k] && slot_of(bs, level, k) == slot by {
        let x = choose|x: int| i <= x < j && (#[trigger] s[x]).0 == k;
        assert(all[s[x].0] == s[x].1);
        assert(run[s[x].0] == s[x].1);
    }
    assert forall|k: u64| #[trigger] all.contains_key(k) && slot_of(bs, level, k) == slot implies run.contains_key(k) by {
        let x = choose|x: int| lo <= x < hi && (#[trigger] s[x]).0 == k;
        assert(i <= x < j);
        assert(run.contains_key(s[x].0));
    }
    assert(through(bs, level, all, slot) =~= run);
    assert(all.contains_key(s[i].0));
}

fn fold_level<S: BlockWrite>(
    store: &mut S,
    tier: u8,
    at: Option<BlockHash>,
    level: u32,
    muts: &SortedMap<u64, Option<BlockHash>>,
    lo: usize,
    hi: usize,
) -> (r: Result<Option<BlockHash>>)
    requires
        old(store).ready(),
        muts.wf(),
        lo < hi <= muts.listing().len(),
        arity(old(store).unit()) >= 2,
        reach(arity(old(store).unit()), level as nat) <= u64::MAX,
        same_node(old(store).unit(), level as nat, muts.listing(), lo as int, hi as int),
    ensures
        progressed(old(store), final(store), tier),
        r matches Ok(root) ==> {
            let m = final(store).shelf(tier);
            let bs = old(store).unit();
            let some = stretch(muts.listing(), lo as int, hi as int);
            &&& path_ok(m, bs, at, level as nat, some)
            &&& root == folded_root(m, bs, at, level as nat, some)
            &&& keeps_promises(m, final(store).promised(tier)) ==> written(m, bs, at, level as nat, some)
        },
        r is Err && old(store).steady() ==> fold_refused(
            old(store),
            final(store),
            tier,
            at,
            level as nat,
            stretch(muts.listing(), lo as int, hi as int),
            r->Err_0,
        ),
    decreases level,
{
    let bs: u32 = store.block_size();
    let epn: u64 = entries_per_node(bs);
    let ghost s = muts.listing();
    proof {
        store.lemma_follows_self();
        muts.lemma_listing();
    }
    let mut node: Vec<u8> = match at {
        Some(hash) => match load_node(store, tier, &hash) {
            Ok(node) => node,
            Err(e) => {
                return Err(e);
            },
        },
        None => {
            let blank: Vec<u8> = vec![0u8; bs as usize];
            assert(blank@ =~= zeros(bs as nat));
            blank
        },
    };
    let step: u64 = stride(epn, level);
    let mut i: usize = lo;
    proof {
        let none = stretch(s, lo as int, lo as int);
        assert(s.subrange(lo as int, lo as int).len() == 0);
        assert forall|slot: int| !touched(bs, level as nat, none, slot) by {
            if touched(bs, level as nat, none, slot) {
                lemma_stretch(s, lo as int, lo as int);
                let k = choose|k: u64| #[trigger] none.contains_key(k) && slot_of(bs, level as nat, k) == slot;
            }
        }
        assert(node@ =~= folded_node(store.shelf(tier), bs, at, level as nat, none));
    }
    while i < hi
        invariant
            store.ready(),
            progressed(old(store), store, tier),
            old(store).ready(),
            muts.wf(),
            s == muts.listing(),
            sorted_entries(s),
            lo <= i <= hi <= s.len(),
            bs == store.unit(),
            bs == old(store).unit(),
            epn == arity(bs) >= 2,
            step == reach(epn as int, level as nat),
            step >= 1,
            reach(epn as int, level as nat) <= u64::MAX,
            same_node(bs, level as nat, s, lo as int, hi as int),
            forall|x: int, y: int| lo <= x < i <= y < hi ==> (#[trigger] s[x]).0 as int / (step as int) < (#[trigger] s[y]).0 as int
                / (step as int),
            at matches Some(h) ==> node_ok(store.shelf(tier), bs, h),
            node@ == folded_node(store.shelf(tier), bs, at, level as nat, stretch(s, lo as int, i as int)),
            path_ok(store.shelf(tier), bs, at, level as nat, stretch(s, lo as int, i as int)),
            keeps_promises(store.shelf(tier), store.promised(tier)) ==> written_below(
                store.shelf(tier),
                bs,
                at,
                level as nat,
                stretch(s, lo as int, i as int),
            ),
        decreases hi - i,
    {
        let ghost lv = level as nat;
        let group: u64 = muts.key_at(i) / step;
        let mut j: usize = i + 1;
        while j < hi && muts.key_at(j) / step == group
            invariant
                muts.wf(),
                s == muts.listing(),
                sorted_entries(s),
                i < j <= hi <= s.len(),
                step >= 1,
                forall|x: int| i <= x < j ==> (#[trigger] s[x]).0 as int / (step as int) == group,
            decreases hi - j,
        {
            j += 1;
        }
        proof {
            lemma_reach_positive(epn as int, lv);
            assert forall|x: int, y: int| lo <= x < j <= y < hi implies (#[trigger] s[x]).0 as int / (step as int) < (#[trigger] s[y]).0 as int
                / (step as int) by {
                assert(s[x].0 as int / (step as int) <= group) by {
                    if x < i {
                        assert(s[x].0 as int / (step as int) < s[i as int].0 as int / (step as int));
                    }
                }
                assert(s[j as int].0 as int / (step as int) > group) by {
                    assert(s[i as int].0.lt(s[j as int].0));
                    vstd::arithmetic::div_mod::lemma_div_is_ordered(s[i as int].0 as int, s[j as int].0 as int, step as int);
                }
                if y > j {
                    assert(s[j as int].0.lt(s[y].0));
                    vstd::arithmetic::div_mod::lemma_div_is_ordered(s[j as int].0 as int, s[y].0 as int, step as int);
                }
            }
            assert forall|x: int| lo <= x < i implies (#[trigger] s[x]).0 as int / reach(arity(bs), lv) < group by {
                assert(s[x].0 as int / (step as int) < s[i as int].0 as int / (step as int));
            }
            lemma_next_group(bs, lv, s, lo as int, i as int, j as int, group as int);
            lemma_slot_bounds(bs, lv, s[i as int].0);
        }
        let slot: u64 = group % epn;
        let ghost pre = stretch(s, lo as int, i as int);
        let ghost all = stretch(s, lo as int, j as int);
        let ghost run = stretch(s, i as int, j as int);
        let ghost before = store.shelf(tier);
        let ghost base = base_node(before, bs, at);
        assert(base.len() == bs);
        proof {
            lemma_folded_entry(before, bs, at, lv, pre, slot as int);
        }
        let value: Option<BlockHash> = if level == 0 {
            proof {
                assert(reach(epn as int, 0) == 1);
                assert(j == i + 1) by {
                    if j > i + 1 {
                        assert(s[i as int].0.lt(s[i + 1].0));
                        assert(s[i + 1].0 as int / 1 == s[i as int].0 as int / 1);
                    }
                }
                lemma_stretch(s, i as int, j as int);
                let k = choose|k: u64| #[trigger] run.contains_key(k);
                assert(run.contains_key(s[i as int].0));
                assert(run.contains_key(k));
            }
            *muts.value_at(i)
        } else {
            let existing = entry(&node, slot);
            proof {
                lemma_reach_grows(epn as int, lv);
                assert forall|x: int, y: int|
                    i <= x < j && i <= y < j implies (#[trigger] s[x]).0 as int / reach(arity(bs), lv) == (#[trigger] s[y]).0
                        as int / reach(arity(bs), lv) by {}
                assert(((lv - 1) as nat + 1) as nat == lv);
                assert(same_node(bs, (lv - 1) as nat, s, i as int, j as int));
            }
            let ghost mid = *store;
            let folded = fold_level(store, tier, existing, level - 1, muts, i, j);
            proof {
                lemma_progressed_twice(old(store), &mid, store, tier);
            }
            let child = match folded {
                Ok(child) => child,
                Err(e) => {
                    proof {
                        if old(store).steady() {
                            let some = stretch(s, lo as int, hi as int);
                            lemma_middle_group(bs, lv, s, lo as int, i as int, j as int, hi as int, group as int);
                            assert(extends(before, store.shelf(tier)));
                            assert(base_node(store.shelf(tier), bs, at) == base);
                            if e == FsError::Full {
                                let len = choose|len: nat| #[trigger] cramped(store, tier, len);
                                assert(cramped(store, tier, len));
                            }
                            assert(touched(bs, lv, some, slot as int));
                            assert(fold_refused(old(store), store, tier, at, lv, some, e));
                        }
                    }
                    return Err(e);
                },
            };
            proof {
                if keeps_promises(store.shelf(tier), store.promised(tier)) {
                    lemma_promises_kept_before(&mid, store, tier);
                }
            }
            child
        };
        proof {
            let now = store.shelf(tier);
            assert(extends(before, now));
            lemma_fold_grows(before, now, bs, at, lv, pre);
            assert(base_node(now, bs, at) == base);
            assert(value == folded_entry(now, bs, at, lv, all, slot as int));
            lemma_fold_step(now, bs, at, lv, pre, all, slot as int, value);
            assert forall|x: int| lv > 0 && #[trigger] touched(bs, lv, all, x) implies path_ok(
                now,
                bs,
                entry_of(base_node(now, bs, at), x),
                (lv - 1) as nat,
                through(bs, lv, all, x),
            ) && (keeps_promises(now, store.promised(tier)) ==> written(
                now,
                bs,
                entry_of(base_node(now, bs, at), x),
                (lv - 1) as nat,
                through(bs, lv, all, x),
            )) by {
                if x != slot {
                    assert(touched(bs, lv, pre, x));
                    assert(through(bs, lv, all, x) == through(bs, lv, pre, x));
                }
            }
        }
        set_entry(&mut node, slot, value);
        i = j;
    }
    let ghost lv = level as nat;
    let ghost some = stretch(s, lo as int, hi as int);
    let ghost before = store.shelf(tier);
    let ghost mid = *store;
    if all_zero(&node) {
        return Ok(None);
    }
    proof {
        store.lemma_promised_held(tier);
        store.lemma_follows_self();
    }
    match store.put(tier, node.as_slice()) {
        Ok(hash) => {
            proof {
                let now = store.shelf(tier);
                assert(progressed(&mid, store, tier));
                lemma_progressed_twice(old(store), &mid, store, tier);
                assert(progressed(old(store), store, tier));
                assert(extends(before, now));
                lemma_fold_grows(before, now, bs, at, lv, some);
                if keeps_promises(now, store.promised(tier)) {
                    assert(progressed(&mid, store, tier));
                    lemma_promises_kept_before(&mid, store, tier);
                    assert(store.promised(tier).contains((hash, node@)));
                }
            }
            Ok(Some(hash))
        },
        Err(e) => {
            proof {
                assert(progressed(&mid, store, tier));
                lemma_progressed_twice(old(store), &mid, store, tier);
                assert(progressed(&mid, &mid, tier));
                if old(store).steady() {
                    if e == FsError::Full {
                        assert(cramped(store, tier, node@.len()));
                    }
                    assert(fold_refused(old(store), store, tier, at, lv, some, e));
                }
            }
            Err(e)
        },
    }
}

/// Apply a batch of mutations to the tree rooted at `root` (or to the empty
/// tree), writing new nodes along every touched path, and return the new
/// root: `None` if the tree folded away entirely.
pub fn fold<S: BlockWrite>(
    store: &mut S,
    tier: u8,
    root: Option<BlockHash>,
    depth: u32,
    mutations: &SortedMap<u64, Option<BlockHash>>,
) -> (r: Result<Option<BlockHash>>)
    requires
        old(store).ready(),
        mutations.wf(),
        depth >= 1,
        sized(old(store).unit(), depth as nat),
        forall|k: u64| #[trigger] mutations@.contains_key(k) ==> k < reach(arity(old(store).unit()), depth as nat),
    ensures
        progressed(old(store), final(store), tier),
        mutations@.dom().len() == 0 ==> r == Ok::<Option<BlockHash>, FsError>(root) && *final(store) == *old(store),
        r matches Ok(new_root) ==> {
            let m = final(store).shelf(tier);
            let bs = old(store).unit();
            &&& mutations@.dom().len() > 0 ==> new_root == folded_root(m, bs, root, (depth - 1) as nat, mutations@)
            &&& mutations@.dom().len() > 0 ==> path_ok(m, bs, root, (depth - 1) as nat, mutations@)
            &&& mutations@.dom().len() > 0 && keeps_promises(m, final(store).promised(tier)) ==> written(m, bs, root, (depth - 1) as nat, mutations@)
            &&& keeps_promises(m, final(store).promised(tier)) ==> forall|k: u64|
                k < reach(arity(bs), depth as nat) ==> #[trigger] tree_get(m, bs, new_root, depth as nat, k)
                    == if mutations@.contains_key(k) {
                    Some(recorded(mutations@[k]))
                } else {
                    tree_get(m, bs, root, depth as nat, k)
                }
        },
        r is Err && old(store).steady() ==> fold_refused(old(store), final(store), tier, root, (depth - 1) as nat, mutations@, r->Err_0),
{
    let n: usize = mutations.len();
    proof {
        store.lemma_follows_self();
    }
    if n == 0 {
        assert forall|k: u64| !mutations@.contains_key(k) by {
            if mutations@.contains_key(k) {
                assert(mutations@.dom().contains(k));
                assert(mutations@.dom() =~= Set::<u64>::empty());
            }
        }
        return Ok(root);
    }
    let bs: u32 = store.block_size();
    let ghost s = mutations.listing();
    let ghost epn = arity(bs);
    let ghost lv = (depth - 1) as nat;
    proof {
        mutations.lemma_listing();
        assert(s.subrange(0, s.len() as int) =~= s);
        mutations.lemma_view();
        lemma_reach_grows(epn, depth as nat);
        lemma_reach_positive(epn, depth as nat);
        assert((lv + 1) as nat == depth as nat);
        assert forall|i: int| 0 <= i < s.len() implies (#[trigger] s[i]).0 as int / reach(epn, depth as nat) == 0 by {
            assert(mutations@.contains_key(s[i].0));
            vstd::arithmetic::div_mod::lemma_basic_div(s[i].0 as int, reach(epn, depth as nat));
        }
    }
    let r = fold_level(store, tier, root, depth - 1, mutations, 0, n);
    proof {
        if let Ok(new_root) = r {
            let m = store.shelf(tier);
            if keeps_promises(m, store.promised(tier)) {
                assert(under_one(bs, lv, mutations@, 0)) by {
                    assert forall|k: u64| #[trigger] mutations@.contains_key(k) implies k as int / reach(epn, (lv + 1) as nat) == 0 by {
                        vstd::arithmetic::div_mod::lemma_basic_div(k as int, reach(epn, depth as nat));
                    }
                }
                assert forall|k: u64|
                    k < reach(arity(bs), depth as nat) implies #[trigger] tree_get(m, bs, new_root, depth as nat, k)
                        == if mutations@.contains_key(k) {
                        Some(recorded(mutations@[k]))
                    } else {
                        tree_get(m, bs, root, depth as nat, k)
                    } by {
                    vstd::arithmetic::div_mod::lemma_basic_div(k as int, reach(epn, depth as nat));
                    law_fold_then_lookup(m, bs, root, lv, mutations@, 0, k);
                }
            }
        }
    }
    r
}

/// The same mutations folded into the same tree give the same root in any
/// two stores that can produce the nodes on the path.
pub proof fn law_identical_folds_agree(
    m: Map<BlockHash, Seq<u8>>,
    n: Map<BlockHash, Seq<u8>>,
    bs: u32,
    root: Option<BlockHash>,
    level: nat,
    muts: Mutations,
)
    requires
        extends(m, n),
        path_ok(m, bs, root, level, muts),
    ensures
        folded_root(m, bs, root, level, muts) == folded_root(n, bs, root, level, muts),
{
    lemma_fold_grows(m, n, bs, root, level, muts);
}


// ---------------------------------------------------------------------
// Walking a tree

/// The mapped entries among the first `n` of a node, in order.
pub open spec fn child_list(node: Seq<u8>, n: nat) -> Seq<BlockHash>
    decreases n,
{
    if n == 0 {
        Seq::empty()
    } else {
        let before = child_list(node, (n - 1) as nat);
        match entry_of(node, n - 1) {
            Some(h) => before.push(h),
            None => before,
        }
    }
}

/// The non-zero child addresses of a raw node payload: what a peer resyncing
/// by tree diff needs, without knowing anything else about the node. The
/// caller tracks levels; a level-0 node's children are data blocks.
pub fn children(node: &Vec<u8>) -> (r: Vec<BlockHash>)
    ensures
        r@ == child_list(node@, node@.len() / 32),
{
    let n: usize = node.len() / 32;
    let mut out: Vec<BlockHash> = Vec::new();
    let mut slot: usize = 0;
    while slot < n
        invariant
            slot <= n == node@.len() / 32,
            out@ == child_list(node@, slot as nat),
        decreases n - slot,
    {
        if let Some(h) = entry(node, slot as u64) {
            out.push(h);
        }
        slot += 1;
    }
    out
}

/// What [`walk`] visits.
#[derive(Debug, Clone, Copy, PartialEq, Eq)]
pub enum MapItem {
    /// A tree node, by its content address.
    Node(BlockHash),
    /// A mapped data block: which index points at which address.
    Block { index: u64, hash: BlockHash },
}

/// Every node and mapped block under a node, the node first, then entry by
/// entry.
pub open spec fn walk_items(m: Map<BlockHash, Seq<u8>>, bs: u32, hash: BlockHash, level: nat, base: int) -> Seq<MapItem>
    decreases level, 1nat, 0nat,
{
    seq![MapItem::Node(hash)] + walk_slots(m, bs, m[hash], level, base, arity(bs) as nat)
}

/// The same for the first `n` entries of a node.
pub open spec fn walk_slots(m: Map<BlockHash, Seq<u8>>, bs: u32, node: Seq<u8>, level: nat, base: int, n: nat) -> Seq<MapItem>
    decreases level, 0nat, n,
{
    if n == 0 {
        Seq::empty()
    } else {
        let before = walk_slots(m, bs, node, level, base, (n - 1) as nat);
        match entry_of(node, n - 1) {
            None => before,
            Some(child) => if level == 0 {
                before.push(MapItem::Block { index: (base + n - 1) as u64, hash: child })
            } else {
                before + walk_items(m, bs, child, (level - 1) as nat, base + (n - 1) * reach(arity(bs), level))
            },
        }
    }
}

/// Every node under a node can be produced.
pub open spec fn walk_ok(m: Map<BlockHash, Seq<u8>>, bs: u32, hash: BlockHash, level: nat) -> bool
    decreases level,
{
    &&& node_ok(m, bs, hash)
    &&& level > 0 ==> forall|slot: int|
        0 <= slot < arity(bs) ==> (#[trigger] entry_of(m[hash], slot) matches Some(child) ==> walk_ok(
            m,
            bs,
            child,
            (level - 1) as nat,
        ))
}

/// Visit every node and mapped block under a root: garbage collection's
/// mark phase and scrub's reachability sweep.
pub fn walk<S: BlockRead>(store: &S, tier: u8, root: &BlockHash, depth: u32) -> (r: Result<Vec<MapItem>>)
    requires
        store.ready(),
        depth >= 1,
        sized(store.unit(), depth as nat),
    ensures
        r matches Ok(items) ==> walk_ok(store.shelf(tier), store.unit(), *root, (depth - 1) as nat) && items@ == walk_items(
            store.shelf(tier),
            store.unit(),
            *root,
            (depth - 1) as nat,
            0,
        ),
        store.steady() ==> (r is Ok <==> walk_ok(store.shelf(tier), store.unit(), *root, (depth - 1) as nat)),
        store.steady() && r is Err ==> r->Err_0 is Corrupt,
{
    let mut items: Vec<MapItem> = Vec::new();
    let r = walk_level(store, tier, root, depth - 1, 0, &mut items);
    match r {
        Ok(()) => {
            assert(items@ =~= walk_items(store.shelf(tier), store.unit(), *root, (depth - 1) as nat, 0));
            Ok(items)
        },
        Err(e) => Err(e),
    }
}

fn walk_level<S: BlockRead>(store: &S, tier: u8, hash: &BlockHash, level: u32, base: u64, items: &mut Vec<MapItem>) -> (r: Result<()>)
    requires
        store.ready(),
        arity(store.unit()) >= 2,
        base + reach(arity(store.unit()), (level + 1) as nat) <= u64::MAX,
    ensures
        r is Ok ==> walk_ok(store.shelf(tier), store.unit(), *hash, level as nat) && final(items)@ == old(items)@ + walk_items(
            store.shelf(tier),
            store.unit(),
            *hash,
            level as nat,
            base as int,
        ),
        store.steady() ==> (r is Ok <==> walk_ok(store.shelf(tier), store.unit(), *hash, level as nat)),
        store.steady() && r is Err ==> r->Err_0 is Corrupt,
    decreases level,
{
    let ghost m = store.shelf(tier);
    items.push(MapItem::Node(*hash));
    let node = load_node(store, tier, hash)?;
    let bs: u32 = store.block_size();
    let epn: u64 = entries_per_node(bs);
    proof {
        lemma_reach_grows(epn as int, (level + 1) as nat);
        lemma_reach_positive(epn as int, level as nat);
    }
    let step: u64 = stride(epn, level);
    let mut slot: u64 = 0;
    let ghost head = items@;
    assert(head + walk_slots(m, bs, node@, level as nat, base as int, 0) =~= head);
    while slot < epn
        invariant
            store.ready(),
            m == store.shelf(tier),
            bs == store.unit(),
            epn == arity(bs) >= 2,
            node@ == m[*hash],
            node@.len() == bs,
            node_ok(m, bs, *hash),
            slot <= epn,
            step == reach(epn as int, level as nat),
            step >= 1,
            base + reach(epn as int, (level + 1) as nat) <= u64::MAX,
            items@ == head + walk_slots(m, bs, node@, level as nat, base as int, slot as nat),
            level > 0 ==> forall|x: int|
                0 <= x < slot ==> (#[trigger] entry_of(m[*hash], x) matches Some(child) ==> walk_ok(m, bs, child, (level - 1) as nat)),
        decreases epn - slot,
    {
        proof {
            assert(slot * step + step <= epn * step) by (nonlinear_arith) requires slot + 1 <= epn, step >= 0;
            assert(reach(epn as int, (level + 1) as nat) == epn * step);
        }
        match entry(&node, slot) {
            Some(child) => {
                let ghost before = items@;
                if level == 0 {
                    items.push(MapItem::Block { index: base + slot, hash: child });
                } else {
                    walk_level(store, tier, &child, level - 1, base + slot * step, items)?;
                }
                proof {
                    assert(items@ =~= head + walk_slots(m, bs, node@, level as nat, base as int, (slot + 1) as nat));
                }
            },
            None => {},
        }
        slot = slot + 1;
    }
    assert(items@ =~= old(items)@ + walk_items(m, bs, *hash, level as nat, base as int));
    Ok(())
}

/// The items an entry contributes are among a node's items.
proof fn lemma_walk_slots_contain(
    m: Map<BlockHash, Seq<u8>>,
    bs: u32,
    node: Seq<u8>,
    level: nat,
    base: int,
    n: nat,
    slot: int,
    item: MapItem,
)
    requires
        0 <= slot < n,
        entry_of(node, slot) is Some,
        level == 0 ==> item == (MapItem::Block { index: (base + slot) as u64, hash: entry_of(node, slot)->Some_0 }),
        level > 0 ==> walk_items(
            m,
            bs,
            entry_of(node, slot)->Some_0,
            (level - 1) as nat,
            base + slot * reach(arity(bs), level),
        ).contains(item),
    ensures
        walk_slots(m, bs, node, level, base, n).contains(item),
    decreases n,
{
    let all = walk_slots(m, bs, node, level, base, n);
    let before = walk_slots(m, bs, node, level, base, (n - 1) as nat);
    if slot == n - 1 {
        if level == 0 {
            assert(all[before.len() as int] == item);
        } else {
            let part = walk_items(m, bs, entry_of(node, slot)->Some_0, (level - 1) as nat, base + slot * reach(arity(bs), level));
            let i = choose|i: int| 0 <= i < part.len() && part[i] == item;
            assert(all[before.len() + i] == item);
        }
    } else {
        lemma_walk_slots_contain(m, bs, node, level, base, (n - 1) as nat, slot, item);
        let i = choose|i: int| 0 <= i < before.len() && before[i] == item;
        assert(all[i] == item);
    }
}

/// Every item of a node's first entries comes from one of them.
proof fn lemma_walk_slots_from(
    m: Map<BlockHash, Seq<u8>>,
    bs: u32,
    node: Seq<u8>,
    level: nat,
    base: int,
    n: nat,
    item: MapItem,
) -> (slot: int)
    requires
        walk_slots(m, bs, node, level, base, n).contains(item),
    ensures
        0 <= slot < n,
        entry_of(node, slot) is Some,
        level == 0 ==> item == (MapItem::Block { index: (base + slot) as u64, hash: entry_of(node, slot)->Some_0 }),
        level > 0 ==> walk_items(
            m,
            bs,
            entry_of(node, slot)->Some_0,
            (level - 1) as nat,
            base + slot * reach(arity(bs), level),
        ).contains(item),
    decreases n,
{
    let all = walk_slots(m, bs, node, level, base, n);
    let i = choose|i: int| 0 <= i < all.len() && all[i] == item;
    let before = walk_slots(m, bs, node, level, base, (n - 1) as nat);
    if i < before.len() {
        assert(before[i] == item);
        lemma_walk_slots_from(m, bs, node, level, base, (n - 1) as nat, item)
    } else {
        if level > 0 {
            let part = walk_items(m, bs, entry_of(node, n - 1)->Some_0, (level - 1) as nat, base + (n - 1) * reach(arity(bs), level));
            assert(part[i - before.len()] == item);
        }
        n - 1
    }
}

/// A walk visits a mapping exactly where a lookup leads: the item for an
/// index is there if and only if the index is mapped, and to that address.
pub proof fn law_walk_visits_every_mapping(
    m: Map<BlockHash, Seq<u8>>,
    bs: u32,
    hash: BlockHash,
    level: nat,
    q: int,
    k: u64,
    h: BlockHash,
)
    requires
        arity(bs) >= 2,
        walk_ok(m, bs, hash, level),
        q >= 0,
        (q + 1) * reach(arity(bs), (level + 1) as nat) <= u64::MAX,
    ensures
        walk_items(m, bs, hash, level, q * reach(arity(bs), (level + 1) as nat)).contains(MapItem::Block { index: k, hash: h })
            <==> k as int / reach(arity(bs), (level + 1) as nat) == q && tree_at(m, bs, hash, level + 1, k) == Some(Some(h)),
    decreases level,
{
    let epn = arity(bs);
    let r = reach(epn, (level + 1) as nat);
    let s = reach(epn, level);
    let base = q * r;
    let item = MapItem::Block { index: k, hash: h };
    let items = walk_items(m, bs, hash, level, base);
    let slots = walk_slots(m, bs, m[hash], level, base, epn as nat);
    lemma_reach_positive(epn, level);
    lemma_reach_positive(epn, (level + 1) as nat);
    assert(r == epn * s);
    assert((q + 1) * r == q * r + r) by (nonlinear_arith);
    assert(base >= 0) by (nonlinear_arith) requires q >= 0, r >= 1, base == q * r;
    assert(items.contains(item) <==> slots.contains(item)) by {
        if items.contains(item) {
            let i = choose|i: int| 0 <= i < items.len() && items[i] == item;
            assert(i > 0);
            assert(slots[i - 1] == item);
        }
        if slots.contains(item) {
            let i = choose|i: int| 0 <= i < slots.len() && slots[i] == item;
            assert(items[i + 1] == item);
        }
    }
    if slots.contains(item) {
        let slot = lemma_walk_slots_from(m, bs, m[hash], level, base, epn as nat, item);
        let child = entry_of(m[hash], slot)->Some_0;
        assert(slot * s + s <= epn * s) by (nonlinear_arith) requires slot + 1 <= epn, s >= 0;
        assert(slot * s >= 0) by (nonlinear_arith) requires slot >= 0, s >= 0;
        let g = q * epn + slot;
        assert(g * s == q * (epn * s) + slot * s) by (nonlinear_arith) requires g == q * epn + slot;
        assert((g + 1) * s == g * s + s) by (nonlinear_arith);
        assert(g >= 0) by (nonlinear_arith) requires q >= 0, epn >= 0, slot >= 0, g == q * epn + slot;
        if level == 0 {
            assert(s == 1);
            assert(k == base + slot);
            assert(tree_at(m, bs, child, 0, k) == Some(Some(child)));
        } else {
            assert(walk_ok(m, bs, child, (level - 1) as nat));
            law_walk_visits_every_mapping(m, bs, child, (level - 1) as nat, g, k, h);
            assert(((level - 1) as nat + 1) as nat == level);
        }
        assert(k as int / s == g) by {
            if level == 0 {
                assert(k as int / 1 == k);
                assert(q * epn == q * (epn * 1));
            }
        }
        vstd::arithmetic::div_mod::lemma_div_denominator(k as int, s, epn);
        assert(s * epn == epn * s) by (nonlinear_arith);
        vstd::arithmetic::div_mod::lemma_fundamental_div_mod_converse(g, epn, q, slot);
        assert(slot_of(bs, level, k) == slot);
    }
    if k as int / r == q && tree_at(m, bs, hash, level + 1, k) == Some(Some(h)) {
        lemma_digits(bs, level, k, q);
        lemma_slot_bounds(bs, level, k);
        let slot = slot_of(bs, level, k);
        let g = q * epn + slot;
        assert(g * s == q * (epn * s) + slot * s) by (nonlinear_arith) requires g == q * epn + slot;
        assert((g + 1) * s == g * s + s) by (nonlinear_arith);
        assert(slot * s + s <= epn * s) by (nonlinear_arith) requires slot + 1 <= epn, s >= 0;
        assert(g >= 0) by (nonlinear_arith) requires q >= 0, epn >= 0, slot >= 0, g == q * epn + slot;
        let child = entry_of(m[hash], slot)->Some_0;
        if level == 0 {
            assert(s == 1);
            assert(k as int / 1 == k);
            assert(q * epn == q * (epn * 1));
            assert(tree_at(m, bs, child, 0, k) == Some(Some(child)));
        } else {
            assert(walk_ok(m, bs, child, (level - 1) as nat));
            assert(((level - 1) as nat + 1) as nat == level);
            law_walk_visits_every_mapping(m, bs, child, (level - 1) as nat, g, k, h);
        }
        lemma_walk_slots_contain(m, bs, m[hash], level, base, epn as nat, slot, item);
    }
}

/// The mappings among some items come by ascending index, each once, from
/// `lo` on and below `hi`.
pub open spec fn ascend_in(items: Seq<MapItem>, lo: int, hi: int) -> bool {
    &&& forall|i: int| 0 <= i < items.len() && (#[trigger] items[i]) is Block ==> lo <= items[i]->Block_index < hi
    &&& forall|i: int, j: int| 0 <= i < j < items.len() && (#[trigger] items[i]) is Block && (#[trigger] items[j]) is Block ==> items[i]->Block_index
        < items[j]->Block_index
}

/// A walk comes by the mappings in ascending order of their indexes, each
/// once.
pub proof fn law_walk_ascends(m: Map<BlockHash, Seq<u8>>, bs: u32, hash: BlockHash, level: nat, base: int)
    requires
        arity(bs) >= 1,
        base >= 0,
        base + reach(arity(bs), (level + 1) as nat) <= u64::MAX,
    ensures
        ascend_in(walk_items(m, bs, hash, level, base), base, base + reach(arity(bs), (level + 1) as nat)),
    decreases level, 1nat, 0nat,
{
    let epn = arity(bs);
    let slots = walk_slots(m, bs, m[hash], level, base, epn as nat);
    let items = walk_items(m, bs, hash, level, base);
    assert(reach(epn, (level + 1) as nat) == epn * reach(epn, level));
    lemma_slots_ascend(m, bs, m[hash], level, base, epn as nat);
    assert forall|i: int| 0 <= i < items.len() && (#[trigger] items[i]) is Block implies i > 0 && items[i] == slots[i - 1] by {}
}

proof fn lemma_slots_ascend(m: Map<BlockHash, Seq<u8>>, bs: u32, node: Seq<u8>, level: nat, base: int, n: nat)
    requires
        arity(bs) >= 1,
        n <= arity(bs),
        base >= 0,
        base + arity(bs) * reach(arity(bs), level) <= u64::MAX,
    ensures
        ascend_in(walk_slots(m, bs, node, level, base, n), base, base + n * reach(arity(bs), level)),
    decreases level, 0nat, n,
{
    if n > 0 {
        let epn = arity(bs);
        let r = reach(epn, level);
        lemma_reach_positive(epn, level);
        let before = walk_slots(m, bs, node, level, base, (n - 1) as nat);
        let all = walk_slots(m, bs, node, level, base, n);
        lemma_slots_ascend(m, bs, node, level, base, (n - 1) as nat);
        let mid = base + (n - 1) * r;
        assert(n * r == (n - 1) * r + r && (n - 1) * r >= 0 && n * r <= epn * r) by (nonlinear_arith)
            requires 1 <= n <= epn, r >= 1;
        if let Some(child) = entry_of(node, n - 1) {
            if level == 0 {
                assert(r == 1);
            } else {
                let more = walk_items(m, bs, child, (level - 1) as nat, mid);
                assert(((level - 1) as nat + 1) as nat == level);
                law_walk_ascends(m, bs, child, (level - 1) as nat, mid);
                assert forall|i: int| 0 <= i < all.len() && (#[trigger] all[i]) is Block implies base <= all[i]->Block_index < base + n * r && (i < before.len()
                    <==> all[i]->Block_index < mid) by {
                    if i >= before.len() {
                        assert(all[i] == more[i - before.len()]);
                    } else {
                        assert(all[i] == before[i]);
                    }
                }
                assert forall|i: int, j: int| 0 <= i < j < all.len() && (#[trigger] all[i]) is Block && (#[trigger] all[j]) is Block implies all[i]->Block_index
                    < all[j]->Block_index by {
                    if i >= before.len() {
                        assert(all[i] == more[i - before.len()] && all[j] == more[j - before.len()]);
                    } else if j < before.len() {
                        assert(all[i] == before[i] && all[j] == before[j]);
                    }
                }
            }
        }
    }
}

/// A store cut down to the nodes a walk visited still leads every index
/// where it led.
pub proof fn law_walk_marks_enough(
    m: Map<BlockHash, Seq<u8>>,
    live: Set<BlockHash>,
    bs: u32,
    hash: BlockHash,
    level: nat,
    base: int,
    k: u64,
)
    requires
        arity(bs) >= 1,
        walk_ok(m, bs, hash, level),
        forall|h: BlockHash| #[trigger] walk_items(m, bs, hash, level, base).contains(MapItem::Node(h)) ==> live.contains(h),
    ensures
        tree_at(m.restrict(live), bs, hash, level + 1, k) == tree_at(m, bs, hash, level + 1, k),
        tree_at(m, bs, hash, level + 1, k) is Some,
    decreases level,
{
    let items = walk_items(m, bs, hash, level, base);
    let slots = walk_slots(m, bs, m[hash], level, base, arity(bs) as nat);
    assert(items[0] == MapItem::Node(hash));
    assert(items.contains(MapItem::Node(hash)));
    assert(live.contains(hash));
    lemma_slot_bounds(bs, level, k);
    let slot = slot_of(bs, level, k);
    if let Some(child) = entry_of(m[hash], slot) {
        if level == 0 {
            assert(tree_at(m, bs, child, 0, k) == Some(Some(child)));
            assert(tree_at(m.restrict(live), bs, child, 0, k) == Some(Some(child)));
        } else {
            let lower = base + slot * reach(arity(bs), level);
            assert forall|h: BlockHash| #[trigger] walk_items(m, bs, child, (level - 1) as nat, lower).contains(MapItem::Node(h)) implies live.contains(h) by {
                let item = MapItem::Node(h);
                lemma_walk_slots_contain(m, bs, m[hash], level, base, arity(bs) as nat, slot, item);
                let i = choose|i: int| 0 <= i < slots.len() && slots[i] == item;
                assert(items[i + 1] == item);
                assert(items.contains(MapItem::Node(h)));
            }
            law_walk_marks_enough(m, live, bs, child, (level - 1) as nat, lower, k);
        }
    }
}

// ---------------------------------------------------------------------
// The mapping alone decides the root

/// A tree as folds leave it: every node is stored under its address, maps
/// something, and spells addresses in its entries.
pub open spec fn canonical_at(m: Map<BlockHash, Seq<u8>>, bs: u32, h: BlockHash, level: nat) -> bool
    decreases level,
{
    &&& node_ok(m, bs, h)
    &&& address_of(m[h]) == h
    &&& m[h] != zeros(bs as nat)
    &&& forall|slot: int| 0 <= slot < arity(bs) ==> ((#[trigger] entry_of(m[h], slot)) matches Some(child) ==> child.0@ == entry_slice(m[h], slot))
    &&& level > 0 ==> forall|slot: int|
        0 <= slot < arity(bs) ==> ((#[trigger] entry_of(m[h], slot)) matches Some(child) ==> canonical_at(m, bs, child, (level - 1) as nat))
}

/// The same from a root that may be missing.
pub open spec fn canonical(m: Map<BlockHash, Seq<u8>>, bs: u32, root: Option<BlockHash>, level: nat) -> bool {
    root matches Some(h) ==> canonical_at(m, bs, h, level)
}

/// Folding into a canonical tree, the empty one among them, leaves a
/// canonical tree.
pub proof fn law_folds_keep_trees_canonical(m: Map<BlockHash, Seq<u8>>, bs: u32, at: Option<BlockHash>, level: nat, muts: Mutations)
    requires
        arity(bs) >= 1,
        canonical(m, bs, at, level),
        written(m, bs, at, level, muts),
    ensures
        canonical(m, bs, folded_root(m, bs, at, level, muts), level),
    decreases level,
{
    let base = base_node(m, bs, at);
    let node = folded_node(m, bs, at, level, muts);
    assert(base.len() == bs);
    if node != zeros(bs as nat) {
        let h = address_of(node);
        assert forall|slot: int| 0 <= slot < arity(bs) implies ((#[trigger] entry_of(node, slot)) matches Some(child) ==> child.0@ == entry_slice(node, slot)
            && (level > 0 ==> canonical_at(m, bs, child, (level - 1) as nat))) by {
            lemma_folded_entry(m, bs, at, level, muts, slot);
            let was = entry_of(base, slot);
            assert(at is None ==> was is None) by {
                if at is None {
                    assert(entry_slice(base, slot) =~= zeros(32));
                }
            }
            if touched(bs, level, muts, slot) {
                let v = folded_entry(m, bs, at, level, muts, slot);
                let cut = entry_slice(node, slot);
                assert(cut =~= entry_bytes(v)) by {
                    assert forall|j: int| 0 <= j < 32 implies cut[j] == entry_bytes(v)[j] by {
                        assert((slot * 32 + j) / 32 == slot && (slot * 32 + j) % 32 == j);
                    }
                }
                if level > 0 {
                    law_folds_keep_trees_canonical(m, bs, was, (level - 1) as nat, through(bs, level, muts, slot));
                }
            } else {
                let cut = entry_slice(node, slot);
                assert(cut =~= entry_slice(base, slot)) by {
                    assert forall|j: int| 0 <= j < 32 implies cut[j] == entry_slice(base, slot)[j] by {
                        assert((slot * 32 + j) / 32 == slot && (slot * 32 + j) % 32 == j);
                    }
                }
            }
        }
        assert(canonical_at(m, bs, h, level));
    }
}

/// The indexes below a node, `q`-th of its level.
spec fn below(bs: u32, level: nat, q: int, k: u64) -> bool {
    k as int / reach(arity(bs), (level + 1) as nat) == q
}

/// An index that goes through an entry.
spec fn through_slot(bs: u32, level: nat, q: int, slot: int) -> u64 {
    ((q * arity(bs) + slot) * reach(arity(bs), level)) as u64
}

proof fn lemma_through_slot(bs: u32, level: nat, q: int, slot: int, k: u64)
    requires
        arity(bs) >= 1,
        q >= 0,
        0 <= slot < arity(bs),
        (q + 1) * reach(arity(bs), (level + 1) as nat) <= u64::MAX,
        k as int / reach(arity(bs), level) == q * arity(bs) + slot,
    ensures
        below(bs, level, q, k),
        slot_of(bs, level, k) == slot,
{
    let epn = arity(bs);
    let s = reach(epn, level);
    lemma_reach_positive(epn, level);
    assert(reach(epn, (level + 1) as nat) == epn * s);
    let g = q * epn + slot;
    vstd::arithmetic::div_mod::lemma_div_denominator(k as int, s, epn);
    assert(s * epn == epn * s) by (nonlinear_arith);
    vstd::arithmetic::div_mod::lemma_fundamental_div_mod_converse(g, epn, q, slot);
}

/// The ranges below a node's entries fit where the node's does.
proof fn lemma_sub_range(bs: u32, level: nat, q: int, slot: int)
    requires
        arity(bs) >= 1,
        q >= 0,
        0 <= slot < arity(bs),
        (q + 1) * reach(arity(bs), (level + 1) as nat) <= u64::MAX,
    ensures
        q * arity(bs) + slot >= 0,
        (q * arity(bs) + slot + 1) * reach(arity(bs), level) <= u64::MAX,
        through_slot(bs, level, q, slot) as int / reach(arity(bs), level) == q * arity(bs) + slot,
{
    let epn = arity(bs);
    let s = reach(epn, level);
    lemma_reach_positive(epn, level);
    assert(reach(epn, (level + 1) as nat) == epn * s);
    let g = q * epn + slot;
    assert(g >= 0 && g + 1 <= (q + 1) * epn) by (nonlinear_arith)
        requires g == q * epn + slot, q >= 0, 0 <= slot < epn;
    assert((g + 1) * s <= (q + 1) * (epn * s)) by (nonlinear_arith)
        requires g + 1 <= (q + 1) * epn, s >= 1;
    assert(0 <= g * s <= (g + 1) * s) by (nonlinear_arith)
        requires g >= 0, s >= 1;
    assert(through_slot(bs, level, q, slot) as int == g * s);
    vstd::arithmetic::div_mod::lemma_fundamental_div_mod_converse(g * s, s, g, 0);
}

/// A canonical tree maps something.
proof fn lemma_canonical_maps(m: Map<BlockHash, Seq<u8>>, bs: u32, h: BlockHash, level: nat, q: int) -> (k: u64)
    requires
        arity(bs) >= 1,
        bs % 32 == 0,
        canonical_at(m, bs, h, level),
        q >= 0,
        (q + 1) * reach(arity(bs), (level + 1) as nat) <= u64::MAX,
    ensures
        below(bs, level, q, k),
        tree_at(m, bs, h, level + 1, k) is Some,
        tree_at(m, bs, h, level + 1, k)->Some_0 is Some,
    decreases level,
{
    let node = m[h];
    let slot = lemma_some_entry(node, bs);
    lemma_sub_range(bs, level, q, slot);
    let g = q * arity(bs) + slot;
    let child = entry_of(node, slot)->Some_0;
    if level == 0 {
        let k = through_slot(bs, level, q, slot);
        lemma_through_slot(bs, level, q, slot, k);
        assert(tree_at(m, bs, child, 0, k) == Some(Some(child)));
        k
    } else {
        assert(((level - 1) as nat + 1) as nat == level);
        let k = lemma_canonical_maps(m, bs, child, (level - 1) as nat, g);
        lemma_through_slot(bs, level, q, slot, k);
        k
    }
}

/// A node that is not blank has an entry.
proof fn lemma_some_entry(node: Seq<u8>, bs: u32) -> (slot: int)
    requires
        node.len() == bs,
        bs % 32 == 0,
        node != zeros(bs as nat),
    ensures
        0 <= slot < arity(bs),
        entry_of(node, slot) is Some,
{
    let i = choose|i: int| 0 <= i < bs && node[i] != 0;
    assert(exists|i: int| 0 <= i < bs && node[i] != 0) by {
        if forall|i: int| 0 <= i < bs ==> node[i] == 0 {
            assert(node =~= zeros(bs as nat));
        }
    }
    let slot = i / 32;
    assert(entry_slice(node, slot)[i % 32] == node[i]);
    assert(entry_slice(node, slot) != zeros(32));
    slot
}

/// Two trees lead the same way below a node.
pub open spec fn lead_alike(
    m: Map<BlockHash, Seq<u8>>,
    a: Option<BlockHash>,
    n: Map<BlockHash, Seq<u8>>,
    b: Option<BlockHash>,
    bs: u32,
    level: nat,
    q: int,
) -> bool {
    forall|k: u64|
        k as int / reach(arity(bs), (level + 1) as nat) == q ==> #[trigger] tree_get(m, bs, a, level + 1, k) == tree_get(n, bs, b, level + 1, k)
}

/// The same mappings give the same root, in whatever stores and by whatever
/// folds they came about; and no root stands for no mapping alone.
pub proof fn law_the_mapping_decides_the_root(
    m: Map<BlockHash, Seq<u8>>,
    a: Option<BlockHash>,
    n: Map<BlockHash, Seq<u8>>,
    b: Option<BlockHash>,
    bs: u32,
    level: nat,
    q: int,
)
    requires
        arity(bs) >= 1,
        bs % 32 == 0,
        canonical(m, bs, a, level),
        canonical(n, bs, b, level),
        q >= 0,
        (q + 1) * reach(arity(bs), (level + 1) as nat) <= u64::MAX,
        lead_alike(m, a, n, b, bs, level, q),
    ensures
        a == b,
    decreases level,
{
    if a is Some && b is None {
        let k = lemma_canonical_maps(m, bs, a->Some_0, level, q);
        assert(tree_get(m, bs, a, level + 1, k) == tree_get(n, bs, b, level + 1, k));
    } else if a is None && b is Some {
        let k = lemma_canonical_maps(n, bs, b->Some_0, level, q);
        assert(tree_get(m, bs, a, level + 1, k) == tree_get(n, bs, b, level + 1, k));
    } else if a is Some && b is Some {
        let (x, y) = (m[a->Some_0], n[b->Some_0]);
        assert forall|slot: int| 0 <= slot < arity(bs) implies #[trigger] entry_slice(x, slot) == entry_slice(y, slot) by {
            let (c, d) = (entry_of(x, slot), entry_of(y, slot));
            lemma_sub_range(bs, level, q, slot);
            let g = q * arity(bs) + slot;
            if level == 0 {
                let k = through_slot(bs, level, q, slot);
                lemma_through_slot(bs, level, q, slot, k);
                assert(tree_get(m, bs, a, level + 1, k) == tree_get(n, bs, b, level + 1, k));
                assert(c matches Some(child) ==> tree_at(m, bs, child, 0, k) == Some(Some(child)));
                assert(d matches Some(child) ==> tree_at(n, bs, child, 0, k) == Some(Some(child)));
                assert(c == d);
            } else {
                let below_level = (level - 1) as nat;
                assert((below_level + 1) as nat == level);
                assert forall|k: u64| k as int / reach(arity(bs), (below_level + 1) as nat) == g implies #[trigger] tree_get(m, bs, c, below_level + 1, k) == tree_get(
                    n,
                    bs,
                    d,
                    below_level + 1,
                    k,
                ) by {
                    lemma_through_slot(bs, level, q, slot, k);
                    assert(tree_get(m, bs, a, level + 1, k) == tree_get(n, bs, b, level + 1, k));
                }
                law_the_mapping_decides_the_root(m, c, n, d, bs, below_level, g);
            }
            assert(c == d);
        }
        assert forall|i: int| 0 <= i < bs implies x[i] == y[i] by {
            let slot = i / 32;
            assert(entry_slice(x, slot)[i % 32] == x[i]);
            assert(entry_slice(y, slot)[i % 32] == y[i]);
        }
        assert(x =~= y);
    }
}

} // verus!
