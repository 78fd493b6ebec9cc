use lumen_fs::brick::{Brick, BrickParams};
use lumen_fs::hash::BlockHash;
use lumen_fs::map::{depth_for, fold, lookup, walk, MapItem};
use lumen_fs::sim::SimDisk;
use lumen_fs::table::SortedMap;

const KIB: u64 = 1024;

fn brick(seed: u64) -> Brick<SimDisk> {
    Brick::format(
        SimDisk::new(4 * KIB * KIB, seed),
        BrickParams {
            pool_uuid: [1; 16],
            brick_uuid: [2; 16],
            // 4 KiB blocks: 128 entries per node, so depth 2 starts at
            // index 128 — reachable in a fast test.
            block_size: 4 * KIB as u32,
            segment_size: 128 * KIB,
            wal_size: 16 * KIB,
            tier: 0,
            wal_holder: true,
        },
    )
    .unwrap()
}

fn map_one(index: u64, hash: BlockHash) -> SortedMap<u64, Option<BlockHash>> {
    let mut muts = SortedMap::new();
    muts.insert(index, Some(hash));
    muts
}

#[test]
fn depth_grows_exactly_when_capacity_outruns_a_level() {
    assert_eq!(depth_for(1, 128), 1);
    assert_eq!(depth_for(128, 128), 1);
    assert_eq!(depth_for(129, 128), 2);
    assert_eq!(depth_for(128 * 128, 128), 2);
    assert_eq!(depth_for(128 * 128 + 1, 128), 3);
}

#[test]
fn a_folded_mutation_is_found_and_the_rest_stay_unmapped() {
    let mut brick = brick(1);
    let data = brick.put(b"the data block").unwrap();
    let root = fold(&mut brick, 0, None, 1, &map_one(5, data))
        .unwrap()
        .unwrap();
    assert_eq!(lookup(&brick, 0, &root, 1, 5).unwrap(), Some(data));
    assert_eq!(lookup(&brick, 0, &root, 1, 6).unwrap(), None);
}

#[test]
fn a_depth_two_tree_routes_indexes_to_the_right_leaves() {
    let mut brick = brick(2);
    let a = brick.put(b"a").unwrap();
    let b = brick.put(b"b").unwrap();
    let mut muts = SortedMap::new();
    muts.insert(3u64, Some(a)); // leaf 0
    muts.insert(130u64, Some(b)); // leaf 1 (128 entries per node)
    let root = fold(&mut brick, 0, None, 2, &muts).unwrap().unwrap();
    assert_eq!(lookup(&brick, 0, &root, 2, 3).unwrap(), Some(a));
    assert_eq!(lookup(&brick, 0, &root, 2, 130).unwrap(), Some(b));
    assert_eq!(lookup(&brick, 0, &root, 2, 129).unwrap(), None);
}

#[test]
fn a_second_fold_preserves_untouched_entries_and_the_old_root() {
    let mut brick = brick(3);
    let a = brick.put(b"first").unwrap();
    let b = brick.put(b"second").unwrap();
    let root_one = fold(&mut brick, 0, None, 1, &map_one(1, a)).unwrap().unwrap();
    let root_two = fold(&mut brick, 0, Some(root_one), 1, &map_one(2, b))
        .unwrap()
        .unwrap();
    // The new root sees both writes; the old root still sees only the
    // first — that is the copy, and it is what a snapshot will pin.
    assert_eq!(lookup(&brick, 0, &root_two, 1, 1).unwrap(), Some(a));
    assert_eq!(lookup(&brick, 0, &root_two, 1, 2).unwrap(), Some(b));
    assert_eq!(lookup(&brick, 0, &root_one, 1, 2).unwrap(), None);
}

#[test]
fn identical_folds_produce_identical_roots() {
    let mut brick_one = brick(4);
    let mut brick_two = brick(5);
    let mut muts = SortedMap::new();
    for i in 0..40u64 {
        let hash = brick_one.put(&i.to_le_bytes()).unwrap();
        brick_two.put(&i.to_le_bytes()).unwrap();
        muts.insert(i * 7, Some(hash));
    }
    let root_one = fold(&mut brick_one, 0, None, 2, &muts).unwrap();
    let root_two = fold(&mut brick_two, 0, None, 2, &muts).unwrap();
    // Content addressing makes map state canonical: same mappings, same
    // root, on any brick anywhere. Replication will lean on this.
    assert_eq!(root_one, root_two);
    assert!(root_one.is_some());
}

#[test]
fn unmapping_the_last_entry_folds_the_tree_away() {
    let mut brick = brick(6);
    let data = brick.put(b"soon gone").unwrap();
    let root = fold(&mut brick, 0, None, 2, &map_one(200, data))
        .unwrap()
        .unwrap();
    let mut unmap = SortedMap::new();
    unmap.insert(200u64, None);
    let root = fold(&mut brick, 0, Some(root), 2, &unmap).unwrap();
    assert_eq!(root, None);
}

#[test]
fn unmapping_one_leaf_prunes_it_without_touching_its_siblings() {
    let mut brick = brick(7);
    let a = brick.put(b"stays").unwrap();
    let b = brick.put(b"goes").unwrap();
    let mut muts = SortedMap::new();
    muts.insert(3u64, Some(a)); // leaf 0
    muts.insert(300u64, Some(b)); // leaf 2
    let root = fold(&mut brick, 0, None, 2, &muts).unwrap().unwrap();
    let mut unmap = SortedMap::new();
    unmap.insert(300u64, None);
    let root = fold(&mut brick, 0, Some(root), 2, &unmap).unwrap().unwrap();
    assert_eq!(lookup(&brick, 0, &root, 2, 3).unwrap(), Some(a));
    assert_eq!(lookup(&brick, 0, &root, 2, 300).unwrap(), None);
    // The pruned leaf is gone from the tree's shape, not merely zeroed:
    // the walk sees one leaf node, not two.
    let mut nodes = 0;
    for item in walk(&brick, 0, &root, 2).unwrap() {
        if matches!(item, MapItem::Node(_)) {
            nodes += 1;
        }
    }
    assert_eq!(nodes, 2, "root and one leaf");
}

#[test]
fn the_walk_visits_every_node_and_every_mapping_exactly_once() {
    let mut brick = brick(8);
    let mut muts = SortedMap::new();
    let mut expected = Vec::new();
    for i in [0u64, 5, 127, 128, 129, 256 * 128 - 1] {
        let hash = brick.put(&i.to_le_bytes()).unwrap();
        muts.insert(i, Some(hash));
        expected.push((i, hash));
    }
    let root = fold(&mut brick, 0, None, 3, &muts).unwrap().unwrap();
    let mut blocks = Vec::new();
    let mut nodes = Vec::new();
    for item in walk(&brick, 0, &root, 3).unwrap() {
        match item {
            MapItem::Node(hash) => nodes.push(hash),
            MapItem::Block { index, hash } => blocks.push((index, hash)),
        }
    }
    blocks.sort_unstable();
    assert_eq!(blocks, expected);
    let unique: std::collections::HashSet<_> = nodes.iter().collect();
    assert_eq!(unique.len(), nodes.len(), "no node visited twice");
}
