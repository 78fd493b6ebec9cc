//! What a collection keeps and what it drops.

use super::checkpoint::checkpointed;
use super::collect::{
    collected, garbage_collected, item_marks, lemma_depth_positive, live_in, pin_reaches, pins_mark, same_but_reserve, session_marks, snapshot_at, snapshots_mark, swept_out,
    tree_marks, tree_walks, vdisks_mark,
};
use super::manifest::manifest_bytes;
use super::sync::{pinned_blocks, pinned_roots};
use super::{mapped, tree_depth, Pool};
use crate::brick::GcStats;
use crate::disk::Disk;
use crate::error::{FsError, Result};
use crate::hash::{address_of, BlockHash};
use crate::map::{
    arity, child_list, entry_of, law_walk_visits_every_mapping, lemma_reach_positive, lemma_tree_grows, reach, slot_of, tree_at, tree_get, walk_items, MapItem,
};
use crate::slice::NodeId;
use crate::store::grew;
use crate::table::{SnapshotId, TierHash};
use vstd::prelude::*;

verus! {

/// A collection changes no table, whatever comes of it.
pub proof fn law_a_collection_changes_no_table<D: Disk>(before: &Pool<D>, after: &Pool<D>, r: Result<GcStats>)
    requires
        garbage_collected(before, after, r),
    ensures
        after.vdisk_map().dom() == before.vdisk_map().dom(),
        after.snapshot_map() == before.snapshot_map(),
        after.lease_map() == before.lease_map(),
        after.era_now() == before.era_now(),
        after.seat() == before.seat(),
        after.pin_map() == before.pin_map(),
        forall|v: u64| #[trigger]
            before.vdisk_map().contains_key(v) ==> after.vdisk_map()[v].size_bytes == before.vdisk_map()[v].size_bytes && after.vdisk_map()[v].tier
                == before.vdisk_map()[v].tier,
{
    let (opened, done) = choose|opened: Pool<D>, done: Pool<D>| #[trigger]
        same_but_reserve(before, &opened) && #[trigger] collected(&opened, &done, r) && same_but_reserve(&done, after);
    if !(r is Err && checkpointed(&opened, &done, Err::<(), FsError>(r->Err_0))) {
        let mid = choose|mid: Pool<D>| #[trigger] checkpointed(&opened, &mid, Ok::<(), FsError>(())) && swept_out(&mid, &done, r);
        assert(done.vdisk_map() == mid.vdisk_map());
    }
    assert forall|v: u64| #[trigger] before.vdisk_map().contains_key(v) implies after.vdisk_map()[v].size_bytes == before.vdisk_map()[v].size_bytes
        && after.vdisk_map()[v].tier == before.vdisk_map()[v].tier by {
        assert(opened.vdisk_map().contains_key(v));
    }
}

proof fn lemma_children(node: Seq<u8>, n: nat, slot: int)
    requires
        0 <= slot < n,
        entry_of(node, slot) is Some,
    ensures
        exists|i: int| 0 <= i < child_list(node, n).len() && #[trigger] child_list(node, n)[i] == entry_of(node, slot)->Some_0,
    decreases n,
{
    if slot == n - 1 {
        assert(child_list(node, n).last() == entry_of(node, slot)->Some_0);
    } else {
        lemma_children(node, (n - 1) as nat, slot);
        let i = choose|i: int| 0 <= i < child_list(node, (n - 1) as nat).len() && #[trigger] child_list(node, (n - 1) as nat)[i] == entry_of(node, slot)->Some_0;
        assert(child_list(node, n)[i] == entry_of(node, slot)->Some_0);
    }
}

proof fn lemma_pin_follows<D: Disk>(pool: &Pool<D>, hash: BlockHash, levels: nat, tier: u8, k: u64, d: BlockHash)
    requires
        arity(pool.unit()) >= 2,
        tree_at(pool.shelf(0), pool.unit(), hash, levels, k) == Some(Some(d)),
        pool.holds(tier).contains(d),
        forall|h: BlockHash| #[trigger] pool.shelf(0).contains_key(h) ==> pool.holds(0).contains(h),
    ensures
        pin_reaches(pool, hash, levels, tier, TierHash { tier, hash: d }),
    decreases levels,
{
    if levels > 0 {
        let node = pool.shelf(0)[hash];
        let level = (levels - 1) as nat;
        let slot = slot_of(pool.unit(), level, k);
        lemma_reach_positive(arity(pool.unit()), level);
        vstd::arithmetic::div_mod::lemma_mod_bound(k as int / reach(arity(pool.unit()), level), arity(pool.unit()));
        let child = entry_of(node, slot)->Some_0;
        assert(node.len() / 32 == arity(pool.unit()));
        lemma_children(node, node.len() / 32, slot);
        let i = choose|i: int| 0 <= i < child_list(node, node.len() / 32).len() && #[trigger] child_list(node, node.len() / 32)[i] == child;
        lemma_pin_follows(pool, child, level, tier, k, d);
        assert(pin_reaches(pool, child_list(node, node.len() / 32)[i], level, tier, TierHash { tier, hash: d }));
    }
}

/// A collection keeps what a peer's session has pinned, as it was: the blocks
/// that came ahead of their operations, and whatever a root on offer leads
/// to. This holds whatever comes of the collection.
pub proof fn law_a_collection_keeps_what_is_pinned<D: Disk>(
    before: &Pool<D>,
    after: &Pool<D>,
    r: Result<GcStats>,
    peer: NodeId,
    x: TierHash,
    root: (BlockHash, u32, u8),
    k: u64,
    d: BlockHash,
)
    requires
        before.inv(),
        garbage_collected(before, after, r),
    ensures
        pinned_blocks(before, peer).contains(x) && before.holds(x.tier).contains(x.hash) ==> after.holds(x.tier).contains(x.hash) && (before.shelf(x.tier).contains_key(
            x.hash,
        ) ==> after.shelf(x.tier).contains_key(x.hash) && after.shelf(x.tier)[x.hash] == before.shelf(x.tier)[x.hash]),
        pinned_roots(before, peer).contains(root) && tree_at(before.shelf(0), before.unit(), root.0, root.1 as nat, k) == Some(Some(d)) && before.holds(root.2).contains(
            d,
        ) ==> after.holds(root.2).contains(d) && (before.shelf(root.2).contains_key(d) ==> after.shelf(root.2).contains_key(d) && after.shelf(root.2)[d]
            == before.shelf(root.2)[d]),
{
    let (opened, done) = choose|opened: Pool<D>, done: Pool<D>| #[trigger]
        same_but_reserve(before, &opened) && #[trigger] collected(&opened, &done, r) && same_but_reserve(&done, after);
    assert(opened.holds(x.tier) == before.holds(x.tier) && opened.shelf(x.tier) == before.shelf(x.tier));
    assert(opened.holds(root.2) == before.holds(root.2) && opened.shelf(root.2) == before.shelf(root.2));
    assert(opened.shelf(0) == before.shelf(0));
    assert(after.holds(x.tier) == done.holds(x.tier) && after.shelf(x.tier) == done.shelf(x.tier));
    assert(after.holds(root.2) == done.holds(root.2) && after.shelf(root.2) == done.shelf(root.2));
    if r is Err && checkpointed(&opened, &done, Err::<(), FsError>(r->Err_0)) {
        assert(grew(opened.holds(x.tier), opened.shelf(x.tier), done.holds(x.tier), done.shelf(x.tier)));
        assert(grew(opened.holds(root.2), opened.shelf(root.2), done.holds(root.2), done.shelf(root.2)));
    } else {
        let mid = choose|mid: Pool<D>| #[trigger] checkpointed(&opened, &mid, Ok::<(), FsError>(())) && swept_out(&mid, &done, r);
        assert(grew(opened.holds(x.tier), opened.shelf(x.tier), mid.holds(x.tier), mid.shelf(x.tier)));
        assert(grew(opened.holds(root.2), opened.shelf(root.2), mid.holds(root.2), mid.shelf(root.2)));
        assert(grew(opened.holds(0), opened.shelf(0), mid.holds(0), mid.shelf(0)));
        assert(mid.pin_map() == before.pin_map());
        if pinned_blocks(before, peer).contains(x) && before.holds(x.tier).contains(x.hash) {
            assert(mid.pin_map().contains_key(peer as u64));
            assert(session_marks(&mid, mid.pin_map()[peer as u64], x));
            assert(pins_mark(&mid, x));
            assert(live_in(&mid, x));
        }
        if pinned_roots(before, peer).contains(root) && tree_at(before.shelf(0), before.unit(), root.0, root.1 as nat, k) == Some(Some(d)) && before.holds(
            root.2,
        ).contains(d) {
            let y = TierHash { tier: root.2, hash: d };
            let pins = mid.pin_map()[peer as u64];
            let i = choose|i: int| 0 <= i < pins.offer@.len() && pins.offer@[i] == root;
            before.lemma_pool();
            lemma_tree_grows(before.shelf(0), mid.shelf(0), before.unit(), root.0, root.1 as nat, k);
            mid.lemma_pool();
            assert forall|h: BlockHash| #[trigger] mid.shelf(0).contains_key(h) implies mid.holds(0).contains(h) by {}
            lemma_pin_follows(&mid, root.0, root.1 as nat, root.2, k, d);
            assert(pin_reaches(&mid, pins.offer@[i].0, pins.offer@[i].1 as nat, pins.offer@[i].2, y));
            assert(session_marks(&mid, pins, y));
            assert(pins_mark(&mid, y));
            assert(live_in(&mid, y));
        }
    }
}

proof fn lemma_marked_is_mapped<D: Disk>(pool: &Pool<D>, root: Option<BlockHash>, size: u64, tier: u8, x: TierHash) -> (k: u64)
    requires
        pool.inv(),
        tree_walks(pool, root, size),
        tree_marks(pool, root, size, tier, x),
        x.tier != 0,
    ensures
        tier == x.tier,
        tree_get(pool.shelf(0), pool.unit(), root, tree_depth(pool.unit(), size), k) == Some(Some(x.hash)),
{
    lemma_depth_positive(pool, size);
    let r = root->Some_0;
    let level = (tree_depth(pool.unit(), size) - 1) as nat;
    let items = walk_items(pool.shelf(0), pool.unit(), r, level, 0);
    let item = choose|item: MapItem| #[trigger] items.contains(item) && item_marks(pool, item, tier, x);
    let k = match item {
        MapItem::Block { index, hash } => index,
        MapItem::Node(_) => 0,
    };
    let span = reach(arity(pool.unit()), (level + 1) as nat);
    assert((level + 1) as nat == tree_depth(pool.unit(), size));
    assert((0 + 1) * span == span && 0 * span == 0) by (nonlinear_arith);
    assert(item == MapItem::Block { index: k, hash: x.hash });
    law_walk_visits_every_mapping(pool.shelf(0), pool.unit(), r, level, 0, k, x.hash);
    k
}

/// Where no peer has anything pinned, a collection that succeeds leaves on a
/// tier of data alone just blocks that something leads to: a vdisk of that
/// tier, or a snapshot of one.
pub proof fn law_a_collection_drops_what_nothing_leads_to<D: Disk>(before: &Pool<D>, after: &Pool<D>, r: Result<GcStats>, t: u8, h: BlockHash)
    requires
        garbage_collected(before, after, r),
        r is Ok,
        forall|peer: u64| !(#[trigger] before.pin_map().contains_key(peer)),
        t != 0,
        after.holds(t).contains(h),
    ensures
        (exists|v: u64, k: u64| #[trigger]
            after.vdisk_map().contains_key(v) && after.vdisk_map()[v].tier == t && #[trigger] mapped(after.shelf(0), after.unit(), after.vdisk_map()[v], k) == Some(Some(h)))
            || (exists|key: SnapshotId, k: u64| #[trigger]
            after.snapshot_map().contains_key(key) && after.vdisk_map()[key.vdisk].tier == t && #[trigger] snapshot_at(after, key, k) == Some(Some(h))),
{
    let (opened, done) = choose|opened: Pool<D>, done: Pool<D>| #[trigger]
        same_but_reserve(before, &opened) && #[trigger] collected(&opened, &done, r) && same_but_reserve(&done, after);
    let mid = choose|mid: Pool<D>| #[trigger] checkpointed(&opened, &mid, Ok::<(), FsError>(())) && swept_out(&mid, &done, r);
    let x = TierHash { tier: t, hash: h };
    assert(done.holds(t) == after.holds(t));
    assert(done.shelf(0) == after.shelf(0));
    assert(done.holds(t).contains(h));
    assert(live_in(&mid, x));
    assert(!pins_mark(&mid, x));
    if vdisks_mark(&mid, x) {
        let v = choose|v: u64| #[trigger]
            mid.vdisk_map().contains_key(v) && tree_marks(&mid, mid.vdisk_map()[v].root, mid.vdisk_map()[v].size_bytes, mid.vdisk_map()[v].tier, x);
        let d = mid.vdisk_map()[v];
        let k = lemma_marked_is_mapped(&mid, d.root, d.size_bytes, d.tier, x);
        assert(mapped(mid.shelf(0), mid.unit(), d, k) == Some(Some(h)));
        assert(mapped(done.shelf(0), done.unit(), done.vdisk_map()[v], k) == Some(Some(h)));
        assert(after.vdisk_map().contains_key(v));
        assert(mapped(after.shelf(0), after.unit(), after.vdisk_map()[v], k) == Some(Some(h)));
    } else {
        let key = choose|key: SnapshotId| #[trigger]
            mid.snapshot_map().contains_key(key) && tree_marks(
                &mid,
                mid.snapshot_map()[key].root,
                mid.snapshot_map()[key].size_bytes,
                mid.vdisk_map()[key.vdisk].tier,
                x,
            );
        let s = mid.snapshot_map()[key];
        let k = lemma_marked_is_mapped(&mid, s.root, s.size_bytes, mid.vdisk_map()[key.vdisk].tier, x);
        assert(snapshot_at(&mid, key, k) == Some(Some(h)));
        assert(snapshot_at(&done, key, k) == Some(Some(h)));
        assert(after.snapshot_map().contains_key(key));
        assert(snapshot_at(after, key, k) == Some(Some(h)));
    }
}

/// Where no peer has anything pinned, a sweep that succeeds leaves just what
/// the trees lead through and to, and the manifest: every block that is still
/// held is the manifest's, or a node or a block of the tree of a vdisk or of
/// a snapshot, on the tier such a thing lives on; and a block of data is one
/// that this node keeps.
pub proof fn law_a_sweep_leaves_the_trees_and_the_manifest<D: Disk>(mid: &Pool<D>, after: &Pool<D>, r: Result<GcStats>, t: u8, h: BlockHash)
    requires
        swept_out(mid, after, r),
        r is Ok,
        forall|peer: u64| !(#[trigger] mid.pin_map().contains_key(peer)),
        after.holds(t).contains(h),
    ensures
        (t == 0 && h == address_of(manifest_bytes(mid.manifest_view()))) || (exists|v: u64| #[trigger]
            mid.vdisk_map().contains_key(v) && in_tree(mid, mid.vdisk_map()[v].root, mid.vdisk_map()[v].size_bytes, mid.vdisk_map()[v].tier, t, h)) || (exists|
            key: SnapshotId,
        | #[trigger]
            mid.snapshot_map().contains_key(key) && in_tree(
                mid,
                mid.snapshot_map()[key].root,
                mid.snapshot_map()[key].size_bytes,
                mid.vdisk_map()[key.vdisk].tier,
                t,
                h,
            )),
{
    let x = TierHash { tier: t, hash: h };
    assert(live_in(mid, x));
    assert(!pins_mark(mid, x));
    if vdisks_mark(mid, x) {
        let v = choose|v: u64| #[trigger]
            mid.vdisk_map().contains_key(v) && tree_marks(mid, mid.vdisk_map()[v].root, mid.vdisk_map()[v].size_bytes, mid.vdisk_map()[v].tier, x);
        lemma_marked_is_in_tree(mid, mid.vdisk_map()[v].root, mid.vdisk_map()[v].size_bytes, mid.vdisk_map()[v].tier, x);
    } else if snapshots_mark(mid, x) {
        let key = choose|key: SnapshotId| #[trigger]
            mid.snapshot_map().contains_key(key) && tree_marks(
                mid,
                mid.snapshot_map()[key].root,
                mid.snapshot_map()[key].size_bytes,
                mid.vdisk_map()[key.vdisk].tier,
                x,
            );
        lemma_marked_is_in_tree(mid, mid.snapshot_map()[key].root, mid.snapshot_map()[key].size_bytes, mid.vdisk_map()[key.vdisk].tier, x);
    }
}

/// A tree passes through a node, which lives on the first tier, or leads to a
/// block, which lives on the tier of its data.
pub open spec fn in_tree<D: Disk>(pool: &Pool<D>, root: Option<BlockHash>, size: u64, data: u8, t: u8, h: BlockHash) -> bool {
    let items = walk_items(pool.shelf(0), pool.unit(), root->Some_0, (tree_depth(pool.unit(), size) - 1) as nat, 0);
    root is Some && ((t == 0 && items.contains(MapItem::Node(h))) || (t == data && pool.keeps(h) && exists|k: u64| #[trigger] items.contains(MapItem::Block { index: k, hash: h })))
}

proof fn lemma_marked_is_in_tree<D: Disk>(pool: &Pool<D>, root: Option<BlockHash>, size: u64, data: u8, x: TierHash)
    requires
        tree_marks(pool, root, size, data, x),
    ensures
        in_tree(pool, root, size, data, x.tier, x.hash),
{
    let items = walk_items(pool.shelf(0), pool.unit(), root->Some_0, (tree_depth(pool.unit(), size) - 1) as nat, 0);
    let item = choose|item: MapItem| #[trigger] items.contains(item) && item_marks(pool, item, data, x);
    match item {
        MapItem::Node(h) => {
            assert(items.contains(MapItem::Node(x.hash)));
        },
        MapItem::Block { index, hash } => {
            assert(items.contains(MapItem::Block { index, hash: x.hash }));
        },
    }
}

} // verus!
