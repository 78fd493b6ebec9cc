//! What holds of every input, on concrete ones.

use lumen_fs::brick::{Brick, BrickParams};
use lumen_fs::bytes::ByteView;
use lumen_fs::burn::round::round;
use lumen_fs::burn::{judge, replay, Tried, Verdict, BURN_BATCH};
use lumen_fs::brick_set::chunk::ScrubCursor;
use lumen_fs::brick_set::BrickSet;
use lumen_fs::disk::Disk;
use lumen_fs::error::FsError;
use lumen_fs::format::{record_span, Anchor, RecordHeader, RosterEntry, SegmentHeader, Superblock};
use lumen_fs::hash::{full_check, hash_block, header_check, AddressBuild, AddressHasher, BlockHash};
use lumen_fs::map::{fold, walk, MapItem};
use lumen_fs::nbd::{answer, simple_reply, Request, CMD_TRIM, CMD_WRITE, EINVAL};
use lumen_fs::pool::entry::WalEntry;
use lumen_fs::pool::manifest::{decode_manifest, encode_manifest, Manifest};
use lumen_fs::pool::sync::AdoptScope;
use lumen_fs::pool::{Lease, Pool, SnapshotState, VdiskHead};
use lumen_fs::repl::coalesce::coalesce;
use lumen_fs::repl::wire::{Effect, PeerMessage, ReplOp};
use lumen_fs::room::{make_change, Change};
use lumen_fs::sim::{SimDisk, SplitMix64};
use lumen_fs::slice::{NodeId, SliceMap, SLICES};
use lumen_fs::table::{BlockSet, SnapshotId, SortedMap, TierHash};

const KIB: u64 = 1024;
const BLOCK: u64 = 4 * KIB;

fn params() -> BrickParams {
    BrickParams {
        pool_uuid: [0xAA; 16],
        brick_uuid: [0xBB; 16],
        block_size: BLOCK as u32,
        segment_size: 128 * KIB,
        wal_size: 32 * KIB,
        tier: 0,
        wal_holder: true,
    }
}

fn pool(seed: u64) -> Pool<SimDisk> {
    Pool::create(Brick::format(SimDisk::new(8 * KIB * KIB, seed), params()).unwrap()).unwrap()
}

fn hex(bytes: &[u8]) -> String {
    bytes.iter().map(|b| format!("{b:02x}")).collect()
}

#[test]
fn addresses_are_blake3_hashes() {
    assert_eq!(
        hex(hash_block(b"").as_bytes()),
        "af1349b9f5f9a1a6a0404dea36dcc9499bcb25c9adc112b7cc9a93cae41f3262"
    );
    assert_eq!(
        hex(hash_block(b"abc").as_bytes()),
        "6437b3ac38465133ffb63b75273a8db548c558465d79db03fd359c6cd5bd9d85"
    );
    let data = vec![7u8; 5000];
    assert_eq!(hash_block(&data).as_bytes(), blake3::hash(&data).as_bytes());
    assert_eq!(full_check(&data), *blake3::hash(&data).as_bytes());
    assert_eq!(header_check(&data)[..], blake3::hash(&data).as_bytes()[..8]);
}

#[test]
fn the_generator_gives_the_published_sequence() {
    let mut rng = SplitMix64::new(0);
    assert_eq!(rng.next_u64(), 0xE220_A839_7B1D_CDAF);
    assert_eq!(rng.next_u64(), 0x6E78_9E6A_A1B9_65F4);
    let mut a = SplitMix64::new(5);
    let mut b = SplitMix64::new(5);
    let mut buf = [0u8; 11];
    a.fill(&mut buf);
    let first = b.next_u64().to_le_bytes();
    let second = b.next_u64().to_le_bytes();
    assert_eq!(buf[..8], first);
    assert_eq!(buf[8..], second[..3]);
    assert!(SplitMix64::new(1).next_below(10) < 10);
    assert!(!SplitMix64::new(1).chance(0));
    assert!(SplitMix64::new(1).chance(100));
}

#[test]
fn an_address_hasher_keeps_the_first_bytes() {
    let mut hasher = AddressBuild.build_hasher();
    assert_eq!(hasher.finish(), 0);
    hasher.write_u8(3);
    let mut other = AddressHasher::default();
    other.write_usize(3);
    assert_eq!(hasher.finish(), other.finish());
}

#[test]
fn flushed_bytes_survive_every_crash() {
    for seed in 0..20u64 {
        let mut disk = SimDisk::new(4096, seed);
        disk.write_at(0, &[1; 512]).unwrap();
        disk.flush().unwrap();
        disk.write_at(1024, &[2; 512]).unwrap();
        disk.crash();
        let mut buf = [0u8; 512];
        disk.read_at(0, &mut buf).unwrap();
        assert_eq!(buf, [1; 512]);
        disk.read_at(2048, &mut buf).unwrap();
        assert_eq!(buf, [0; 512]);
    }
}

#[test]
fn acknowledged_writes_survive_every_crash() {
    for seed in 0..12u64 {
        let mut pool = pool(500 + seed);
        pool.create_vdisk(1, 40 * BLOCK, 0).unwrap();
        for index in 0..10u64 {
            pool.write_block(1, index, &[index as u8; 700]).unwrap();
        }
        if seed % 2 == 0 {
            pool.checkpoint().unwrap();
        }
        pool.flush().unwrap();
        pool.write_block(1, 0, &[0xEE; 700]).unwrap();
        let mut disk = pool.into_brick().into_disk();
        disk.crash();
        let pool = Pool::open(Brick::open(disk).unwrap()).unwrap();
        for index in 1..10u64 {
            assert_eq!(pool.read_block(1, index).unwrap().unwrap(), vec![index as u8; 700], "seed {seed}");
        }
        let first = pool.read_block(1, 0).unwrap().unwrap();
        assert!(first == vec![0u8; 700] || first == vec![0xEE; 700], "seed {seed}");
    }
}

#[test]
fn snapshots_leases_and_trims_survive_every_crash() {
    for seed in 0..8u64 {
        let mut pool = pool(700 + seed);
        pool.create_vdisk(1, 40 * BLOCK, 0).unwrap();
        pool.create_vdisk(2, 40 * BLOCK, 0).unwrap();
        pool.write_block(1, 3, b"pinned").unwrap();
        pool.snapshot_vdisk(1, 9).unwrap();
        pool.write_block(1, 3, b"after").unwrap();
        pool.claim_lease(1, 4).unwrap();
        pool.write_block(1, 5, b"gone").unwrap();
        pool.trim_block(1, 5).unwrap();
        pool.delete_vdisk(2).unwrap();
        pool.flush().unwrap();
        let lease = pool.lease(1);
        pool.write_block(1, 6, b"maybe").unwrap();
        let mut disk = pool.into_brick().into_disk();
        disk.crash();
        let pool = Pool::open(Brick::open(disk).unwrap()).unwrap();
        assert_eq!(pool.read_snapshot_block(1, 9, 3).unwrap().unwrap(), b"pinned");
        assert_eq!(pool.read_block(1, 3).unwrap().unwrap(), b"after");
        assert_eq!(pool.read_block(1, 5).unwrap(), None);
        assert_eq!(pool.lease(1), lease);
        assert_eq!(pool.read_block(2, 0).unwrap_err(), FsError::UnknownVdisk(2));
    }
}

#[test]
fn a_crash_after_a_collection_loses_nothing_live() {
    for seed in 0..12u64 {
        let mut brick = Brick::format(SimDisk::new(2 * KIB * KIB, 900 + seed), params()).unwrap();
        let mut live = BlockSet::new();
        let mut kept = Vec::new();
        for i in 0..330u64 {
            let payload = vec![(i % 251) as u8 + 1; 3000 + i as usize];
            let hash = brick.put(&payload).unwrap();
            if i % 3 == 0 {
                live.insert(hash, ());
                kept.push((hash, payload));
            }
        }
        brick.flush().unwrap();
        let stats = brick.retain_and_reclaim(&live).unwrap();
        assert_eq!(stats.blocks_dropped, 220);
        assert!(stats.segments_compacted > 0);
        let more = brick.put(&[0xEE; 900]).unwrap();
        let mut disk = brick.into_disk();
        disk.crash();
        let brick = Brick::open(disk).unwrap();
        for (hash, payload) in &kept {
            assert_eq!(brick.get(hash).unwrap().unwrap(), *payload, "seed {seed}");
        }
        if let Some(payload) = brick.get(&more).unwrap() {
            assert_eq!(payload, vec![0xEE; 900]);
        }
    }
}

#[test]
fn headers_round_trip_with_tiers_and_rosters() {
    let sb = Superblock {
        block_size: 4096,
        segment_size: 1 << 20,
        segment_area_start: 1 << 16,
        segment_count: 3,
        generation: 1,
        wal_start: 16384,
        wal_size: 0,
        pool_uuid: [3; 16],
        brick_uuid: [4; 16],
        tier: 9,
        wal_holder: false,
    };
    assert_eq!(Superblock::decode(&sb.encode()).unwrap().unwrap(), sb);
    let anchor = Anchor {
        generation: 2,
        wal_replay_offset: 20000,
        wal_replay_seq: 5,
        wal_epoch: 6,
        era: 7,
        manifest_hash: [8; 32],
        roster: vec![RosterEntry { brick_uuid: [1; 16], tier: 0 }, RosterEntry { brick_uuid: [2; 16], tier: 3 }],
    };
    assert_eq!(Anchor::decode(&anchor.encode()), Some(anchor));
    let segment = SegmentHeader { seq: 1, segment_index: 2, brick_uuid: [5; 16] };
    assert_eq!(SegmentHeader::decode(&segment.encode(), 2, &[5; 16]), Some(segment));
    let record = RecordHeader { seq: 3, length: 4096, hash: hash_block(b"r") };
    assert_eq!(RecordHeader::decode(&record.encode(), 3, 4096), Some(record));
    assert_eq!(record_span(4032), 4096);
    assert_eq!(record_span(4033), 8192);
}

#[test]
fn ring_entries_round_trip() {
    let entries = [
        WalEntry::CreateVdisk { id: 1, size_bytes: 2, tier: 3 },
        WalEntry::MapWrite { vdisk: 4, index: 5, hash: hash_block(b"e") },
        WalEntry::TrimBlock { vdisk: 6, index: 7 },
        WalEntry::DeleteVdisk { id: 8 },
        WalEntry::SetLease { vdisk: 9, lease: Lease { holder: 1, handing_to: Some(2), era: 3 } },
        WalEntry::SetLease { vdisk: 9, lease: Lease { holder: 1, handing_to: None, era: 3 } },
    ];
    for entry in entries {
        let bytes = entry.encode();
        assert_eq!(WalEntry::decode(&bytes), Some(entry));
        assert_eq!(WalEntry::decode(&bytes[..bytes.len() - 1]), None);
    }
    assert_eq!(WalEntry::decode(&[99]), None);
}

#[test]
fn a_sorted_map_keeps_its_keys_in_order() {
    let mut map: SortedMap<TierHash, u32> = SortedMap::new();
    let a = TierHash { tier: 1, hash: hash_block(b"a") };
    let b = TierHash { tier: 0, hash: hash_block(b"b") };
    map.insert(a, 1);
    map.insert(b, 2);
    map.insert(a, 3);
    assert_eq!(map.len(), 2);
    assert_eq!(map.keys(), vec![b, a]);
    assert_eq!(map.get(&a), Some(3));
    assert_eq!(map.take(&a), Some(3));
    assert!(!map.contains(&a));
    assert!(map.remove(&b));
    assert!(!map.remove(&b));
}

#[test]
fn a_scrub_in_slices_finds_what_a_whole_one_finds() {
    let mut pool = pool(40);
    pool.create_vdisk(1, 40 * BLOCK, 0).unwrap();
    for index in 0..25u64 {
        pool.write_block(1, index, &index.to_le_bytes()).unwrap();
    }
    pool.checkpoint().unwrap();
    let whole = pool.scrub().unwrap();
    let mut verified = 0;
    let mut slices = 0;
    let mut cursor: Option<ScrubCursor> = None;
    loop {
        let (count, bad, next) = pool.scrub_chunk(cursor, 4).unwrap();
        assert!(count <= 4);
        assert_eq!(bad, Vec::<BlockHash>::new());
        verified += count;
        slices += 1;
        match next {
            Some(_) => cursor = next,
            None => break,
        }
    }
    assert_eq!(verified, whole.blocks_verified);
    assert_eq!(verified, pool.scrub_total());
    assert_eq!(slices, verified.div_ceil(4));
}

#[test]
fn rot_found_while_open_is_named_and_refused() {
    let mut set = BrickSet::format(vec![(SimDisk::new(8 * KIB * KIB, 41), params())]).unwrap();
    let good = set.put(0, b"good bytes").unwrap();
    assert_eq!(set.get(0, &good).unwrap().unwrap(), b"good bytes");
    let (verified, corrupt) = set.scrub().unwrap();
    assert_eq!((verified, corrupt.len()), (1, 0));
    assert_eq!(set.put(0, b"").err().unwrap(), FsError::EmptyPayload);
    assert!(matches!(
        set.put(0, &vec![1u8; BLOCK as usize + 1]).err().unwrap(),
        FsError::PayloadTooLarge { .. }
    ));
    assert!(matches!(set.put_prehashed(9, good, b"good bytes").err().unwrap(), FsError::NoSuchTier(9)));
}

#[test]
fn the_remaining_refusals_are_named() {
    let mut pool = pool(42);
    pool.create_vdisk(1, 10 * BLOCK, 0).unwrap();
    assert_eq!(pool.create_vdisk(2, BLOCK, 5).err().unwrap(), FsError::NoSuchTier(5));
    pool.snapshot_vdisk(1, 3).unwrap();
    assert_eq!(pool.snapshot_vdisk(1, 3).err().unwrap(), FsError::SnapshotExists { vdisk: 1, snapshot: 3 });
    assert_eq!(pool.snapshot_vdisk(9, 3).err().unwrap(), FsError::UnknownVdisk(9));
    assert_eq!(pool.rollback_vdisk(1, 4).err().unwrap(), FsError::UnknownSnapshot { vdisk: 1, snapshot: 4 });
    assert_eq!(pool.clone_vdisk(1, 1, 3).err().unwrap(), FsError::VdiskExists(1));
    let mut id = 10;
    let full = loop {
        match pool.create_vdisk(id, BLOCK, 0) {
            Ok(()) => id += 1,
            Err(FsError::WalFull) => pool.checkpoint().unwrap(),
            Err(e) => break e,
        }
    };
    assert_eq!(full, FsError::ManifestFull);
    pool.checkpoint().unwrap();
    assert!(pool.prepare_reassign(2, &vec![0, 1]).is_err());
    assert!(pool.commit_reassign().is_err());
    let map = SliceMap::for_members(1, &vec![0, 1]).unwrap();
    assert!(matches!(pool.adopt_map(map).err().unwrap(), FsError::Placement(_)));
}

#[test]
fn a_disk_too_small_or_misaligned_is_bad_geometry() {
    let mut small = params();
    small.segment_size = 1000;
    assert!(matches!(
        Brick::format(SimDisk::new(8 * KIB * KIB, 43), small).err().unwrap(),
        FsError::BadGeometry(_)
    ));
    assert!(matches!(
        Brick::format(SimDisk::new(64 * KIB, 44), params()).err().unwrap(),
        FsError::BadGeometry(_)
    ));
    let mut disk = SimDisk::new(1024, 45);
    let mut buf = [0u8; 8];
    assert_eq!(
        disk.read_at(1020, &mut buf).err().unwrap(),
        FsError::OutOfBounds { offset: 1020, len: 8, disk_size: 1024 }
    );
    assert!(disk.write_at(u64::MAX, &[1]).is_err());
}

#[test]
fn a_placed_pool_asks_for_its_seat() {
    let mut pool = pool(46);
    pool.set_placement(0, SliceMap::for_members(3, &vec![0, 1]).unwrap());
    pool.create_vdisk(1, BLOCK, 0).unwrap();
    pool.checkpoint().unwrap();
    let store = BrickSet::single(Brick::open(pool.into_brick().into_disk()).unwrap()).unwrap();
    let map = SliceMap::for_members(1, &vec![0, 1, 2]).unwrap();
    let pool = Pool::open_set_placed(store, 0, map).unwrap();
    // The manifest's map wins over the one handed in.
    assert_eq!(pool.placement().unwrap().1.version(), 3);
    let store = BrickSet::single(Brick::open(pool.into_brick().into_disk()).unwrap()).unwrap();
    assert_eq!(
        Pool::open_set(store).err().unwrap(),
        FsError::Corrupt("a placed pool must be opened with its seat")
    );
}

#[test]
fn prehashed_blocks_store_as_their_addresses() {
    let mut pool = pool(47);
    pool.create_vdisk(1, 10 * BLOCK, 0).unwrap();
    let items: Vec<(BlockHash, Vec<u8>)> = (0..5u8).map(|i| (hash_block(&[i; 100]), vec![i; 100])).collect();
    pool.put_blocks_prehashed(0, &items).unwrap();
    for (i, (hash, payload)) in items.iter().enumerate() {
        assert_eq!(pool.block_payload(0, hash).unwrap().unwrap(), *payload);
        pool.write_block_prehashed(1, i as u64, *hash).unwrap();
        assert_eq!(pool.read_block(1, i as u64).unwrap().unwrap(), *payload);
    }
    assert!(matches!(
        pool.write_block_prehashed(1, 9, hash_block(b"never stored")).err().unwrap(),
        FsError::Corrupt(_)
    ));
    assert_eq!(pool.block_payload(0, &hash_block(b"never stored")).unwrap(), None);
}

#[test]
fn an_unmapped_tier_reads_by_the_vdisks_own_tier() {
    let mut second = params();
    second.brick_uuid = [0xCC; 16];
    second.tier = 2;
    second.wal_holder = false;
    second.wal_size = 0;
    let set = BrickSet::format(vec![
        (SimDisk::new(8 * KIB * KIB, 48), params()),
        (SimDisk::new(8 * KIB * KIB, 49), second),
    ])
    .unwrap();
    let mut pool = Pool::create_set(set).unwrap();
    assert_eq!(pool.tiers(), vec![0, 2]);
    pool.create_vdisk(1, 10 * BLOCK, 2).unwrap();
    assert_eq!(pool.vdisk_tier(1).unwrap(), 2);
    pool.write_block(1, 0, b"on the slow tier").unwrap();
    let hash = hash_block(b"on the slow tier");
    assert!(pool.has_block(2, &hash));
    assert!(!pool.has_block(0, &hash));
    pool.checkpoint().unwrap();
    let disks: Vec<SimDisk> = pool.into_bricks().into_iter().map(Brick::into_disk).collect();
    let pool = Pool::open_set(BrickSet::open(disks).unwrap()).unwrap();
    assert_eq!(pool.read_block(1, 0).unwrap().unwrap(), b"on the slow tier");
}

#[test]
fn a_run_of_blocks_ends_at_the_first_refusal() {
    let mut pool = pool(81);
    let blocks: Vec<Vec<u8>> = vec![b"first".to_vec(), Vec::new(), b"third".to_vec()];
    let items: Vec<(BlockHash, Vec<u8>)> = blocks.iter().map(|b| (hash_block(b), b.clone())).collect();
    assert_eq!(pool.put_blocks_prehashed(0, &items).unwrap_err(), FsError::EmptyPayload);
    assert!(pool.has_block(0, &items[0].0));
    assert!(!pool.has_block(0, &items[2].0));
    assert_eq!(pool.put_blocks_prehashed(9, &items).unwrap_err(), FsError::NoSuchTier(9));
    pool.put_blocks_prehashed(0, &Vec::new()).unwrap();
}

#[test]
fn blocks_are_whole_sectors() {
    let mut odd = params();
    odd.block_size = 5000;
    assert_eq!(
        Brick::format(SimDisk::new(8 * KIB * KIB, 82), odd).err().unwrap(),
        FsError::BadGeometry("block size must be a sector multiple")
    );
}

#[test]
fn a_set_is_laid_out_whole_or_refused() {
    let holder = || (SimDisk::new(8 * KIB * KIB, 83), params());
    let plain = |id: u8, tier: u8| {
        let mut p = params();
        p.brick_uuid = [id; 16];
        p.tier = tier;
        p.wal_holder = false;
        p.wal_size = 0;
        (SimDisk::new(8 * KIB * KIB, id as u64), p)
    };
    let set = BrickSet::format(vec![plain(1, 0), holder(), plain(2, 3)]).unwrap();
    assert_eq!(Pool::create_set(set).unwrap().tiers(), vec![0, 3]);
    assert_eq!(
        BrickSet::format(vec![plain(1, 0)]).err().unwrap(),
        FsError::BrickSetMismatch("a set is formatted with exactly one WAL holder")
    );
    assert_eq!(
        BrickSet::format(vec![holder(), holder()]).err().unwrap(),
        FsError::BrickSetMismatch("a set is formatted with exactly one WAL holder")
    );
    assert!(BrickSet::format(vec![holder(), plain(1, 0), plain(1, 0)]).is_err());
    let mut odd = plain(3, 0);
    odd.1.segment_size = 1000;
    assert!(matches!(BrickSet::format(vec![holder(), odd]).err().unwrap(), FsError::BadGeometry(_)));
}

#[test]
fn a_map_that_would_strand_a_slice_is_refused() {
    let map = SliceMap::for_members(1, &vec![0, 1]).unwrap();
    assert_eq!(
        map.reassigned(2, &vec![0, 2, 3]).err().unwrap(),
        FsError::Placement("a map must spread slices evenly")
    );
}

#[test]
fn a_member_more_or_less_leaves_every_slice_a_home() {
    for n in 2..=7u8 {
        let members: Vec<NodeId> = (0..n).collect();
        let map = SliceMap::for_members(1, &members).unwrap();
        let more: Vec<NodeId> = (0..=n).collect();
        let mut afters = vec![map.reassigned(2, &more).unwrap()];
        if n > 2 {
            for gone in 0..n {
                let rest: Vec<NodeId> = members.iter().copied().filter(|m| *m != gone).collect();
                afters.push(map.reassigned(2, &rest).unwrap());
            }
        }
        for after in afters {
            assert!(after.orphaned.is_empty());
            for slice in 0..SLICES {
                let homes = map.homes(slice);
                assert!(after.map.homes(slice).iter().any(|m| homes.contains(m)), "{n} members, slice {slice}");
            }
        }
    }
}

#[test]
fn a_tight_queue_stays_as_it_is() {
    let apply = |first_rseq: u64, index: u64| {
        Effect::Send(1, PeerMessage::Apply { first_rseq, ops: vec![ReplOp::Trim { vdisk: 1, index }] })
    };
    let payloads = |byte: u8| Effect::Send(1, PeerMessage::Payloads(vec![(0, vec![byte; 4])]));
    let crossed = vec![apply(1, 0), payloads(9), apply(2, 1)];
    let once = coalesce(crossed);
    assert_eq!(coalesce(once.clone()), once);
    let chatter = vec![payloads(1), apply(4, 0), payloads(2), apply(5, 1), apply(9, 2)];
    let once = coalesce(chatter);
    assert_eq!(once.len(), 3);
    assert_eq!(coalesce(once.clone()), once);
}

#[test]
fn a_disk_counts_what_it_is_asked() {
    let mut disk = SimDisk::new(4096, 84);
    disk.write_at(0, &[1; 10]).unwrap();
    disk.write_at(600, &[2; 10]).unwrap();
    assert!(disk.write_at(4090, &[3; 10]).is_err());
    disk.flush().unwrap();
    disk.crash();
    assert_eq!((disk.writes, disk.flushes, disk.crashes), (2, 1, 1));
    let mut buf = [7u8; 8];
    assert!(disk.read_at(4095, &mut buf).is_err());
    assert_eq!(buf, [7; 8]);
}

#[test]
fn a_tree_is_decided_by_what_it_maps() {
    let mut brick = Brick::format(SimDisk::new(8 * KIB * KIB, 85), params()).unwrap();
    let hashes: Vec<BlockHash> = (0..6u8).map(|i| hash_block(&[i; 40])).collect();
    let places = [3u64, 400, 129, 7, 128, 9000];
    let mut all: SortedMap<u64, Option<BlockHash>> = SortedMap::new();
    for (place, hash) in places.iter().zip(&hashes) {
        all.insert(*place, Some(*hash));
    }
    let at_once = fold(&mut brick, 0, None, 2, &all).unwrap();
    let mut root = None;
    for (place, hash) in places.iter().zip(&hashes).rev() {
        let mut one = SortedMap::new();
        one.insert(*place, Some(*hash));
        one.insert(77, Some(*hash));
        root = fold(&mut brick, 0, root, 2, &one).unwrap();
    }
    assert_ne!(root, at_once);
    let mut back = SortedMap::new();
    back.insert(77, None);
    root = fold(&mut brick, 0, root, 2, &back).unwrap();
    assert_eq!(root, at_once);
    let items = walk(&brick, 0, &root.unwrap(), 2).unwrap();
    let found: Vec<u64> = items
        .iter()
        .filter_map(|item| match item {
            MapItem::Block { index, .. } => Some(*index),
            _ => None,
        })
        .collect();
    assert_eq!(found, vec![3, 7, 128, 129, 400, 9000]);
    for (place, _) in places.iter().zip(&hashes) {
        let mut one = SortedMap::new();
        one.insert(*place, None);
        root = fold(&mut brick, 0, root, 2, &one).unwrap();
    }
    assert_eq!(root, None);
}

#[test]
fn a_change_makes_room_for_itself() {
    let mut pool = pool(86);
    pool.create_vdisk(1, 1000 * BLOCK, 0).unwrap();
    let fresh = || Tried { checkpointed: false, collected: false };
    // Ten times what the disk holds: the ring and the bricks fill many times.
    for n in 0..16_000u64 {
        let data = hash_block(&n.to_le_bytes()).as_bytes().repeat(128);
        make_change(&mut pool, 1, &Change::Write { offset: (n % 50) * BLOCK, data }, fresh()).unwrap();
    }
    let last = hash_block(&15_999u64.to_le_bytes()).as_bytes().repeat(128);
    assert_eq!(pool.read_bytes(1, (15_999 % 50) * BLOCK, BLOCK).unwrap(), last);
    make_change(&mut pool, 1, &Change::Trim { offset: 0, len: 50 * BLOCK }, fresh()).unwrap();
    assert_eq!(pool.read_bytes(1, 0, BLOCK).unwrap(), vec![0; BLOCK as usize]);
    let past = Change::Trim { offset: 1000 * BLOCK, len: 1 };
    assert!(make_change(&mut pool, 1, &past, fresh()).is_err());
}

#[test]
fn requests_are_answered_from_the_pool() {
    let mut pool = pool(87);
    pool.create_vdisk(1, 10 * BLOCK, 0).unwrap();
    let ask = |kind: u16, cookie: u64, offset: u64, length: u32| Request { kind, cookie, offset, length };
    let data: Vec<u8> = (0..200u8).collect();
    assert_eq!(
        answer(&mut pool, 1, &ask(CMD_WRITE, 5, 4000, 200), data.clone()),
        Some(simple_reply(0, 5, &[]))
    );
    assert_eq!(answer(&mut pool, 1, &ask(0, 6, 4000, 200), Vec::new()), Some(simple_reply(0, 6, &data)));
    assert_eq!(answer(&mut pool, 1, &ask(3, 7, 0, 0), Vec::new()), Some(simple_reply(0, 7, &[])));
    assert_eq!(answer(&mut pool, 1, &ask(CMD_TRIM, 8, 4000, 4200), Vec::new()), Some(simple_reply(0, 8, &[])));
    // The trim covers one block whole; the edge before it stays.
    let mut left = data.clone();
    left[96..].fill(0);
    assert_eq!(answer(&mut pool, 1, &ask(0, 9, 4000, 200), Vec::new()), Some(simple_reply(0, 9, &left)));
    assert_eq!(
        answer(&mut pool, 1, &ask(0, 10, 10 * BLOCK, 1), Vec::new()),
        Some(simple_reply(EINVAL, 10, &[]))
    );
    assert_eq!(answer(&mut pool, 1, &ask(99, 11, 0, 0), Vec::new()), Some(simple_reply(EINVAL, 11, &[])));
    assert_eq!(answer(&mut pool, 1, &ask(2, 12, 0, 0), Vec::new()), None);
    assert_eq!(answer(&mut pool, 1, &ask(CMD_WRITE, 13, 0, u32::MAX), Vec::new()), None);
}

#[test]
fn a_pool_outlives_a_crash_after_a_collection() {
    for seed in 0..10u64 {
        let mut pool = pool(1000 + seed);
        pool.create_vdisk(1, 60 * BLOCK, 0).unwrap();
        for round in 0..6u8 {
            for index in 0..30u64 {
                pool.write_block(1, index, &[round * 31 + index as u8 + 1; 900]).unwrap();
            }
        }
        pool.snapshot_vdisk(1, 2).unwrap();
        pool.trim_block(1, 3).unwrap();
        assert!(pool.collect_garbage().unwrap().blocks_dropped > 0);
        pool.write_block(1, 40, b"maybe").unwrap();
        let mut disk = pool.into_brick().into_disk();
        disk.crash();
        let pool = Pool::open(Brick::open(disk).unwrap()).unwrap();
        for index in 0..30u64 {
            let want = vec![5 * 31 + index as u8 + 1; 900];
            assert_eq!(pool.read_snapshot_block(1, 2, index).unwrap().unwrap(), want, "seed {seed}");
            let now = pool.read_block(1, index).unwrap();
            assert_eq!(now, if index == 3 { None } else { Some(want) }, "seed {seed}");
        }
        if let Some(last) = pool.read_block(1, 40).unwrap() {
            assert_eq!(last, b"maybe");
        }
    }
}

#[test]
fn a_disk_laid_out_again_is_an_empty_pool() {
    let mut pool = pool(110);
    pool.create_vdisk(7, 10 * BLOCK, 0).unwrap();
    pool.write_block(7, 1, b"old").unwrap();
    pool.flush().unwrap();
    let used = pool.into_brick().into_disk();
    let flushes = used.flushes;
    let mut params = params();
    params.brick_uuid = [0xDD; 16];
    let brick = Brick::format(used, params).unwrap();
    let mut pool = Pool::create(brick).unwrap();
    assert_eq!(pool.vdisks(), vec![]);
    assert_eq!(pool.snapshots(), vec![]);
    assert_eq!(pool.leases(), vec![]);
    pool.create_vdisk(7, 10 * BLOCK, 0).unwrap();
    assert_eq!(pool.read_block(7, 1).unwrap(), None);
    assert_eq!(pool.into_brick().into_disk().flushes, flushes + 1);
}

#[test]
fn a_set_laid_out_on_used_disks_is_an_empty_pool() {
    let mut second = params();
    second.brick_uuid = [0xCC; 16];
    second.tier = 1;
    second.wal_holder = false;
    second.wal_size = 0;
    let set = BrickSet::format(vec![
        (SimDisk::new(8 * KIB * KIB, 111), params()),
        (SimDisk::new(8 * KIB * KIB, 112), second),
    ])
    .unwrap();
    let mut pool = Pool::create_set(set).unwrap();
    pool.create_vdisk(3, 10 * BLOCK, 1).unwrap();
    pool.flush().unwrap();
    let mut disks = pool.into_bricks().into_iter().map(Brick::into_disk);
    let (first, other) = (disks.next().unwrap(), disks.next().unwrap());
    let set = BrickSet::format(vec![(other, second), (first, params())]).unwrap();
    let pool = Pool::create_set(set).unwrap();
    assert_eq!(pool.vdisks(), vec![]);
    assert_eq!(pool.tiers(), vec![0, 1]);
}

#[test]
fn a_block_reads_back_across_clones_and_rollbacks_of_others() {
    let mut pool = pool(113);
    pool.create_vdisk(1, 10 * BLOCK, 0).unwrap();
    pool.create_vdisk(2, 10 * BLOCK, 0).unwrap();
    pool.write_block(1, 4, b"kept").unwrap();
    pool.write_block(2, 4, b"other").unwrap();
    pool.snapshot_vdisk(1, 5).unwrap();
    pool.snapshot_vdisk(2, 6).unwrap();
    pool.clone_vdisk(3, 1, 5).unwrap();
    pool.write_block(2, 4, b"newer").unwrap();
    pool.rollback_vdisk(2, 6).unwrap();
    pool.delete_snapshot(2, 6).unwrap();
    pool.collect_garbage().unwrap();
    assert_eq!(pool.read_block(1, 4).unwrap().unwrap(), b"kept");
    assert_eq!(pool.read_block(3, 4).unwrap().unwrap(), b"kept");
    assert_eq!(pool.read_block(2, 4).unwrap().unwrap(), b"other");
    pool.trim_block(1, 4).unwrap();
    assert_eq!(pool.read_block(3, 4).unwrap().unwrap(), b"kept");
    assert_eq!(pool.read_snapshot_block(1, 5, 4).unwrap().unwrap(), b"kept");
}

#[test]
fn a_cut_manifest_is_corrupt() {
    let head = VdiskHead { size_bytes: 4096, tier: 2, root: Some(hash_block(b"root")) };
    let plain = Manifest {
        vdisks: vec![(1, head), (4, VdiskHead { size_bytes: 1, tier: 0, root: None })],
        snapshots: vec![(SnapshotId { vdisk: 1, snapshot: 8 }, SnapshotState { size_bytes: 4096, root: None })],
        leases: vec![(4, Lease { holder: 1, handing_to: Some(2), era: 3 })],
        map: None,
    };
    let placed = Manifest {
        vdisks: vec![(9, head)],
        snapshots: vec![],
        leases: vec![],
        map: Some(SliceMap::for_members(5, &vec![0, 1, 2]).unwrap()),
    };
    for manifest in [plain, placed] {
        let bytes = encode_manifest(&manifest);
        let back = decode_manifest(&bytes).unwrap();
        assert_eq!(format!("{:?}", back.vdisks), format!("{:?}", manifest.vdisks));
        assert_eq!(format!("{:?}", back.snapshots), format!("{:?}", manifest.snapshots));
        assert_eq!(back.leases, manifest.leases);
        assert_eq!(back.map, manifest.map);
        for n in 0..bytes.len() {
            assert!(matches!(decode_manifest(&bytes[..n]).err().unwrap(), FsError::Corrupt(_)), "{n} bytes");
        }
    }
}

#[test]
fn an_adoption_takes_what_is_named_or_nothing() {
    let mut pool = pool(114);
    pool.create_vdisk(1, 10 * BLOCK, 0).unwrap();
    pool.create_vdisk(2, 10 * BLOCK, 0).unwrap();
    pool.write_block(1, 0, b"one").unwrap();
    pool.write_block(2, 0, b"two").unwrap();
    pool.claim_lease(1, 3).unwrap();
    pool.snapshot_vdisk(1, 5).unwrap();
    let (era, before, pinned) = pool.sync_manifest();
    let lease = pool.lease(1);
    let missing = vec![(2, BLOCK, 0, Some(hash_block(b"not here")))];
    assert_eq!(
        pool.adopt_sync(era + 1, &missing, &vec![], &vec![], AdoptScope::Whole).err().unwrap(),
        FsError::Corrupt("adopting a root the store does not hold")
    );
    let foreign = vec![(2, BLOCK, 9, None)];
    assert_eq!(
        pool.adopt_sync(era + 1, &foreign, &vec![], &vec![], AdoptScope::Named).err().unwrap(),
        FsError::NoSuchTier(9)
    );
    assert_eq!(pool.sync_manifest(), (era, before, pinned.clone()));
    assert_eq!(pool.read_block(2, 0).unwrap().unwrap(), b"two");

    let named = vec![(2, 20 * BLOCK, 0, None)];
    pool.adopt_sync(era + 1, &named, &vec![], &vec![], AdoptScope::Named).unwrap();
    assert_eq!(pool.read_block(1, 0).unwrap().unwrap(), b"one");
    assert_eq!(pool.read_snapshot_block(1, 5, 0).unwrap().unwrap(), b"one");
    assert_eq!(pool.lease(1), lease);
    assert_eq!(pool.read_block(2, 0).unwrap(), None);

    let whole = vec![(8, 3 * BLOCK, 0, None)];
    let grants = vec![(8, Lease { holder: 2, handing_to: None, era: 9 })];
    pool.adopt_sync(era + 2, &whole, &vec![], &grants, AdoptScope::Whole).unwrap();
    assert_eq!(pool.sync_manifest(), (era + 2, whole, vec![]));
    assert_eq!(pool.leases(), grants);
}

#[test]
fn bricks_without_one_ring_are_no_set() {
    let mut plain = params();
    plain.wal_holder = false;
    plain.wal_size = 0;
    let one = Brick::format(SimDisk::new(8 * KIB * KIB, 115), plain).unwrap();
    assert_eq!(
        BrickSet::from_bricks(vec![one]).err().unwrap(),
        FsError::BrickSetMismatch("no brick holds the WAL — the node's ring has nowhere to live")
    );
    let mut other = params();
    other.brick_uuid = [0xCC; 16];
    let bricks = vec![
        Brick::format(SimDisk::new(8 * KIB * KIB, 116), params()).unwrap(),
        Brick::format(SimDisk::new(8 * KIB * KIB, 117), other).unwrap(),
    ];
    assert_eq!(
        BrickSet::from_bricks(bricks).err().unwrap(),
        FsError::BrickSetMismatch("two bricks claim the WAL — two rings would be two histories")
    );
}

#[test]
fn either_superblock_slot_is_enough() {
    for slot in 0..2u64 {
        let mut brick = Brick::format(SimDisk::new(8 * KIB * KIB, 120 + slot), params()).unwrap();
        let hash = brick.put(b"held twice named").unwrap();
        brick.flush().unwrap();
        let mut disk = brick.into_disk();
        disk.write_at(slot * 4096, &[0xFF; 4096]).unwrap();
        disk.flush().unwrap();
        let brick = Brick::open(disk).unwrap();
        assert_eq!(brick.get(&hash).unwrap().unwrap(), b"held twice named");
        let mut disk = brick.into_disk();
        disk.write_at((1 - slot) * 4096, &[0xFF; 4096]).unwrap();
        disk.flush().unwrap();
        assert!(Brick::open(disk).is_err());
    }
}

#[test]
fn a_collection_empties_the_emptiest_until_enough_is_free() {
    let mut brick = Brick::format(SimDisk::new(4 * KIB * KIB, 122), params()).unwrap();
    let mut live = BlockSet::new();
    let mut kept = Vec::new();
    let mut i = 0u64;
    while let Ok(hash) = brick.put(&[i.to_le_bytes(), [7; 8]].concat().repeat(200)) {
        if i % 8 == 0 {
            live.insert(hash, ());
            kept.push((hash, i));
        }
        i += 1;
    }
    let before = brick.stats();
    assert!(before.segments_free < 4);
    brick.open_reserve();
    let stats = brick.retain_and_reclaim(&live).unwrap();
    let after = brick.stats();
    assert!(stats.segments_compacted > 1);
    assert!(after.segments_free >= after.segments_total / 2);
    assert_eq!(stats.segments_freed, stats.segments_compacted);
    for (hash, i) in kept {
        assert_eq!(brick.get(&hash).unwrap().unwrap(), [i.to_le_bytes(), [7; 8]].concat().repeat(200));
    }
}

#[test]
fn a_flush_leaves_bricks_alone_that_nobody_wrote_to() {
    let mut second = params();
    second.brick_uuid = [0xCC; 16];
    second.tier = 1;
    second.wal_holder = false;
    second.wal_size = 0;
    let mut set = BrickSet::format(vec![
        (SimDisk::new(8 * KIB * KIB, 123), params()),
        (SimDisk::new(8 * KIB * KIB, 124), second),
    ])
    .unwrap();
    set.flush().unwrap();
    set.put(0, b"on the first").unwrap();
    set.flush().unwrap();
    set.flush().unwrap();
    set.put(1, b"on the second").unwrap();
    set.flush().unwrap();
    let flushes: Vec<u64> = set.into_bricks().into_iter().map(|b| b.into_disk().flushes).collect();
    // One for the format, one for the first flush of all, one for each put.
    assert_eq!(flushes, vec![3, 3]);
}

#[test]
fn a_round_of_the_burn_in_claims_what_it_made() {
    let mut pool = pool(125);
    pool.create_vdisk(1, 40 * BLOCK, 0).unwrap();
    let (mut done, mut below) = (0, u64::MAX);
    for _ in 0..5 {
        (done, below) = round(&mut pool, 1, 99, done, 40, below).unwrap();
    }
    assert_eq!(done, 5 * BURN_BATCH);
    let mut disk = pool.into_brick().into_disk();
    disk.crash();
    let mut pool = Pool::open(Brick::open(disk).unwrap()).unwrap();
    assert_eq!(pool.read_bytes(1, 0, 8).unwrap(), done.to_le_bytes().to_vec());
    let acked = replay(99, 1, done, 40);
    for index in 1..40u64 {
        let found = pool.read_bytes(1, index * BLOCK, BLOCK).unwrap();
        assert_eq!(judge(99, &found, acked[index as usize], None), Verdict::Exact);
    }
    assert_eq!(round(&mut pool, 9, 99, done, 40, below).err().unwrap(), FsError::UnknownVdisk(9));
}

#[test]
fn a_read_gives_the_last_write_over_any_run() {
    let mut disk = SimDisk::new(300, 126);
    let mut want = vec![0u8; 300];
    let mut rng = SplitMix64::new(126);
    for n in 0..60u8 {
        let (at, len) = (rng.next_below(310), rng.next_below(50) as usize);
        let data = vec![n; len];
        if disk.write_at(at, &data).is_ok() {
            want[at as usize..at as usize + len].copy_from_slice(&data);
        }
        if rng.chance(20) {
            disk.flush().unwrap();
        }
        let mut got = vec![0u8; 300];
        disk.read_at(0, &mut got).unwrap();
        assert_eq!(got, want);
    }
}

#[test]
fn a_rollback_reads_as_its_snapshot_even_after_a_crash() {
    for seed in 0..6u64 {
        let mut pool = pool(130 + seed);
        pool.create_vdisk(1, 20 * BLOCK, 0).unwrap();
        pool.create_vdisk(2, 20 * BLOCK, 0).unwrap();
        pool.write_block(1, 2, b"then").unwrap();
        pool.write_block(2, 2, b"other").unwrap();
        pool.snapshot_vdisk(1, 4).unwrap();
        pool.write_block(1, 2, b"now").unwrap();
        pool.write_block(1, 3, b"new").unwrap();
        assert_eq!(pool.rollback_vdisk(1, 9).err().unwrap(), FsError::UnknownSnapshot { vdisk: 1, snapshot: 9 });
        pool.rollback_vdisk(1, 4).unwrap();
        let mut disk = pool.into_brick().into_disk();
        disk.crash();
        let pool = Pool::open(Brick::open(disk).unwrap()).unwrap();
        assert_eq!(pool.read_block(1, 2).unwrap().unwrap(), b"then");
        assert_eq!(pool.read_block(1, 3).unwrap(), None);
        assert_eq!(pool.read_block(2, 2).unwrap().unwrap(), b"other");
        assert_eq!(pool.read_snapshot_block(1, 4, 2).unwrap().unwrap(), b"then");
    }
}
