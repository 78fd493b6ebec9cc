use lumen_fs::brick::{Brick, BrickParams};
use lumen_fs::brick_set::BrickSet;
use lumen_fs::error::FsError;
use lumen_fs::hash::hash_block;
use lumen_fs::sim::SimDisk;
use lumen_fs::table::{SortedMap, TierHash};

const KIB: u64 = 1024;

fn params(uuid: u8, tier: u8, wal_holder: bool) -> BrickParams {
    BrickParams {
        pool_uuid: [0xAA; 16],
        brick_uuid: [uuid; 16],
        block_size: 16 * KIB as u32,
        segment_size: 256 * KIB,
        wal_size: if wal_holder { 64 * KIB } else { 0 },
        tier,
        wal_holder,
    }
}

fn disk(seed: u64) -> SimDisk {
    SimDisk::new(4 * KIB * KIB, seed)
}

fn two_tier_set() -> BrickSet<SimDisk> {
    BrickSet::format(vec![
        (disk(1), params(1, 0, true)),
        (disk(2), params(2, 0, false)),
        (disk(3), params(3, 1, false)),
    ])
    .unwrap()
}

#[test]
fn a_set_formats_together_rosters_everyone_and_reopens() {
    let mut set = two_tier_set();
    let fast = set.put(0, b"fast payload").unwrap();
    let slow = set.put(1, b"slow payload").unwrap();
    set.flush().unwrap();
    assert_eq!(
        set.roster().len(),
        3,
        "every brick appears in the roster view"
    );
    let anchor = set.wal_brick().read_best_anchor().unwrap().unwrap();
    assert_eq!(anchor.roster.len(), 3, "and in the durable anchor");

    let disks = set
        .into_bricks()
        .into_iter()
        .map(Brick::into_disk)
        .collect();
    let set = BrickSet::open(disks).unwrap();
    assert_eq!(set.get(0, &fast).unwrap().unwrap(), b"fast payload");
    assert_eq!(set.get(1, &slow).unwrap().unwrap(), b"slow payload");
    assert_eq!(set.tiers(), vec![0, 1]);
}

#[test]
fn dedupe_is_per_tier_never_across() {
    let mut set = two_tier_set();
    let on_fast = set.put(0, b"the same bytes").unwrap();
    let blocks_before = set.stats().blocks;
    // The same payload again on the same tier: a no-op.
    assert_eq!(set.put(0, b"the same bytes").unwrap(), on_fast);
    assert_eq!(set.stats().blocks, blocks_before);
    // On the other tier: the same address, a second block — its tier
    // is part of its home.
    assert_eq!(set.put(1, b"the same bytes").unwrap(), on_fast);
    assert_eq!(set.stats().blocks, blocks_before + 1);
}

#[test]
fn a_tier_with_no_brick_refuses_instead_of_spilling() {
    let mut set = two_tier_set();
    assert_eq!(set.put(7, b"payload").err().unwrap(), FsError::NoSuchTier(7));
    assert_eq!(set.get(7, &hash_block(b"payload")).unwrap(), None);
}

#[test]
fn allocation_levels_toward_the_most_free_brick() {
    let set = BrickSet::format(vec![
        (disk(10), params(1, 0, true)),
        // Twice the disk: the roomier brick, and where writes go
        // until free space evens out.
        (SimDisk::new(8 * KIB * KIB, 11), params(2, 0, false)),
    ])
    .unwrap();
    let bricks = set.into_bricks();
    assert!(
        bricks[1].free_segments() > bricks[0].free_segments(),
        "the premise of the test"
    );
    let mut set = BrickSet::assemble(bricks).unwrap();
    set.put(0, &[1u8; 16 * KIB as usize]).unwrap();
    let bricks = set.into_bricks();
    assert_eq!(bricks[1].stats().blocks, 1);
    assert_eq!(bricks[0].stats().blocks, 0);
}

#[test]
fn a_full_tier_surfaces_full_after_trying_every_brick() {
    // Two tiny tier-0 bricks: a 400 KiB disk holds one 256 KiB segment.
    let mut set = BrickSet::format(vec![
        (SimDisk::new(500 * KIB, 20), params(1, 0, true)),
        (SimDisk::new(400 * KIB, 21), params(2, 0, false)),
    ])
    .unwrap();
    let mut stored = 0;
    loop {
        match set.put(0, &[stored as u8; 16 * KIB as usize]) {
            Ok(_) => stored += 1,
            Err(FsError::Full) => break,
            Err(err) => panic!("unexpected: {err:?}"),
        }
    }
    assert!(stored > 0, "the set stored something before filling");
}

#[test]
fn assembly_refuses_what_is_not_one_set() {
    // A foreign pool among the bricks.
    let foreign = BrickParams {
        pool_uuid: [0xBB; 16],
        ..params(2, 0, false)
    };
    let bricks = vec![
        Brick::format(disk(30), params(1, 0, true)).unwrap(),
        Brick::format(disk(31), foreign).unwrap(),
    ];
    assert!(matches!(
        BrickSet::assemble(bricks).err().unwrap(),
        FsError::BrickSetMismatch(_)
    ));

    // No holder anywhere.
    let bricks = vec![Brick::format(disk(32), params(1, 1, false)).unwrap()];
    assert!(matches!(
        BrickSet::assemble(bricks).err().unwrap(),
        FsError::BrickSetMismatch(_)
    ));

    // Two holders.
    let bricks = vec![
        Brick::format(disk(33), params(1, 0, true)).unwrap(),
        Brick::format(disk(34), params(2, 0, true)).unwrap(),
    ];
    assert!(matches!(
        BrickSet::assemble(bricks).err().unwrap(),
        FsError::BrickSetMismatch(_)
    ));

    // A holder off tier 0.
    let bricks = vec![Brick::format(disk(35), params(1, 2, true)).unwrap()];
    assert!(matches!(
        BrickSet::assemble(bricks).err().unwrap(),
        FsError::BrickSetMismatch(_)
    ));
}

#[test]
fn a_missing_brick_fails_the_roster_check_at_open() {
    let mut disks: Vec<SimDisk> = two_tier_set()
        .into_bricks()
        .into_iter()
        .map(Brick::into_disk)
        .collect();
    // One brick left unplugged.
    disks.pop();
    assert!(matches!(
        BrickSet::open(disks).err().unwrap(),
        FsError::BrickSetMismatch(_)
    ));
}

#[test]
fn an_extra_brick_fails_the_roster_check_at_open() {
    let mut disks: Vec<SimDisk> = two_tier_set()
        .into_bricks()
        .into_iter()
        .map(Brick::into_disk)
        .collect();
    // A formatted brick from nowhere: it belongs to the pool by uuid,
    // but no anchored history rosters it.
    disks.push(
        Brick::format(disk(40), params(9, 1, false))
            .unwrap()
            .into_disk(),
    );
    assert!(matches!(
        BrickSet::open(disks).err().unwrap(),
        FsError::BrickSetMismatch(_)
    ));
}

/// The label "usable" cannot drift: the arithmetic is pinned to
/// numbers computed by hand from the geometry, not to itself.
#[test]
fn the_byte_arithmetic_is_pinned_to_hand_computed_numbers() {
    let set = two_tier_set();
    let report = set.space_report();
    // A 16 KiB block spans 20 KiB on disk (64-byte header, padded to
    // the next sector), so 12 fit a 256 KiB segment beside its header
    // sector: 196608 payload bytes per segment. Every disk here ends
    // up with 15 segments, one of them the collection reserve.
    let per_brick = 14 * 196_608u64;
    assert_eq!(report.tiers.len(), 2);
    let tier0 = &report.tiers[0];
    assert_eq!(tier0.tier, 0);
    assert_eq!(tier0.bricks.len(), 2);
    assert_eq!(tier0.space.usable_bytes, 2 * per_brick);
    assert_eq!(
        tier0.space.free_bytes,
        2 * per_brick,
        "a fresh set is all free"
    );
    assert_eq!(tier0.space.payload_bytes, 0);
    let tier1 = &report.tiers[1];
    assert_eq!(tier1.tier, 1);
    assert_eq!(tier1.space.usable_bytes, per_brick);
    assert!(!tier1.bricks[0].wal_holder);
    assert!(
        tier0.bricks.iter().any(|b| b.wal_holder),
        "the holder sits on tier 0"
    );
}

#[test]
fn collection_keeps_what_is_routed_and_reclaims_the_rest() {
    let mut set = two_tier_set();
    let keep = set.put(0, b"keep me").unwrap();
    let drop_hash = set.put(0, b"drop me").unwrap();
    let slow = set.put(1, b"slow keep").unwrap();
    set.flush().unwrap();

    let mut live = SortedMap::new();
    live.insert(TierHash { tier: 0, hash: keep }, ());
    live.insert(TierHash { tier: 1, hash: slow }, ());
    set.open_reserve();
    let stats = set.retain_and_reclaim(&live).unwrap();
    set.close_reserve();
    assert!(stats.blocks_dropped >= 1);
    assert_eq!(set.get(0, &keep).unwrap().unwrap(), b"keep me");
    assert_eq!(set.get(1, &slow).unwrap().unwrap(), b"slow keep");
    assert_eq!(set.get(0, &drop_hash).unwrap(), None);
}
