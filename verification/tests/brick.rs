use lumen_fs::brick::{Brick, BrickParams};
use lumen_fs::disk::Disk;
use lumen_fs::error::FsError;
use lumen_fs::format::{RECORD_HEADER_LEN, SECTOR_SIZE, WAL_AREA_START};
use lumen_fs::hash::full_check;
use lumen_fs::sim::SimDisk;

const KIB: u64 = 1024;

fn params() -> BrickParams {
    BrickParams {
        pool_uuid: [0xAA; 16],
        brick_uuid: [0xBB; 16],
        block_size: 16 * KIB as u32,
        segment_size: 256 * KIB,
        wal_size: 64 * KIB,
        tier: 0,
        wal_holder: true,
    }
}

fn small_brick(seed: u64) -> Brick<SimDisk> {
    Brick::format(SimDisk::new(4 * KIB * KIB, seed), params()).unwrap()
}

#[test]
fn brick_a_put_block_reads_back_after_reopen() {
    let mut brick = small_brick(1);
    let hash = brick.put(b"the block").unwrap();
    brick.flush().unwrap();
    let brick = Brick::open(brick.into_disk()).unwrap();
    assert_eq!(brick.get(&hash).unwrap().unwrap(), b"the block");
}

#[test]
fn brick_an_unformatted_disk_refuses_to_open() {
    assert_eq!(
        Brick::open(SimDisk::new(4 * KIB * KIB, 2)).err().unwrap(),
        FsError::NotFormatted
    );
}

/// A brick formatted under version 1 opens as its version's name, never
/// as an unformatted disk the caller might feel free to reuse.
#[test]
fn a_version_one_brick_is_refused_by_name_not_reported_blank() {
    let mut buf = [0u8; 128];
    buf[0..8].copy_from_slice(b"LUMENFS\0");
    buf[8..12].copy_from_slice(&1u32.to_le_bytes());
    buf[12..16].copy_from_slice(&(16 * KIB as u32).to_le_bytes());
    buf[16..24].copy_from_slice(&(256 * KIB).to_le_bytes());
    buf[24..32].copy_from_slice(&(WAL_AREA_START + 64 * KIB).to_le_bytes());
    buf[32..40].copy_from_slice(&7u64.to_le_bytes());
    buf[40..48].copy_from_slice(&1u64.to_le_bytes());
    buf[48..56].copy_from_slice(&WAL_AREA_START.to_le_bytes());
    buf[56..64].copy_from_slice(&(64 * KIB).to_le_bytes());
    buf[64..80].copy_from_slice(&[1; 16]);
    buf[80..96].copy_from_slice(&[2; 16]);
    let check = full_check(&buf[0..96]);
    buf[96..128].copy_from_slice(&check);

    let mut disk = SimDisk::new(4 * KIB * KIB, 6);
    let mut sector = vec![0u8; SECTOR_SIZE as usize];
    sector[..buf.len()].copy_from_slice(&buf);
    disk.write_at(0, &sector).unwrap();
    disk.write_at(SECTOR_SIZE, &sector).unwrap();
    disk.flush().unwrap();
    assert_eq!(
        Brick::open(disk).err().unwrap(),
        FsError::UnsupportedVersion(1)
    );
}

#[test]
fn a_non_holder_brick_carries_no_wal_and_no_anchor() {
    let quiet = BrickParams {
        wal_size: 0,
        tier: 1,
        wal_holder: false,
        ..params()
    };
    let mut brick = Brick::format(SimDisk::new(4 * KIB * KIB, 7), quiet).unwrap();
    assert_eq!(brick.wal_bounds(), (WAL_AREA_START, 0));
    assert_eq!(brick.read_best_anchor().unwrap(), None);
    assert_eq!(brick.tier(), 1);
    assert!(!brick.wal_holder());
    let hash = brick.put(b"payload").unwrap();
    brick.flush().unwrap();
    let brick = Brick::open(brick.into_disk()).unwrap();
    assert_eq!(brick.get(&hash).unwrap().unwrap(), b"payload");
    assert_eq!(brick.read_best_anchor().unwrap(), None);
    assert_eq!(brick.tier(), 1);
}

#[test]
fn wal_geometry_must_match_the_holder_flag() {
    // A holder without a ring has nowhere to anchor replay.
    let holder_no_ring = BrickParams {
        wal_size: 0,
        ..params()
    };
    assert!(matches!(
        Brick::format(SimDisk::new(4 * KIB * KIB, 8), holder_no_ring).err().unwrap(),
        FsError::BadGeometry(_)
    ));
    // A ring on a non-holder is space nobody would ever replay.
    let ring_no_holder = BrickParams {
        wal_holder: false,
        ..params()
    };
    assert!(matches!(
        Brick::format(SimDisk::new(4 * KIB * KIB, 9), ring_no_holder).err().unwrap(),
        FsError::BadGeometry(_)
    ));
}

#[test]
fn a_formatted_brick_states_its_tier_and_rosters_itself() {
    let tiered = BrickParams {
        tier: 2,
        ..params()
    };
    let brick = Brick::format(SimDisk::new(4 * KIB * KIB, 10), tiered).unwrap();
    assert_eq!(brick.tier(), 2);
    assert!(brick.wal_holder());
    let anchor = brick.read_best_anchor().unwrap().unwrap();
    assert_eq!(anchor.roster, vec![brick.roster_entry()]);
}

#[test]
fn brick_a_duplicate_put_is_one_block_not_two() {
    let mut brick = small_brick(3);
    let first = brick.put(&[7u8; 4096]).unwrap();
    let bytes_after_first = brick.stats().payload_bytes;
    let second = brick.put(&[7u8; 4096]).unwrap();
    assert_eq!(first, second);
    assert_eq!(brick.stats().blocks, 1);
    assert_eq!(brick.stats().payload_bytes, bytes_after_first);
}

#[test]
fn brick_blocks_roll_into_a_second_segment_and_all_survive_reopen() {
    let mut brick = small_brick(4);
    // Each 16 KiB block spans 5 sectors; a 256 KiB segment holds 12.
    let mut hashes = Vec::new();
    for i in 0..30u8 {
        hashes.push(brick.put(&[i; 16 * KIB as usize]).unwrap());
    }
    brick.flush().unwrap();
    let brick = Brick::open(brick.into_disk()).unwrap();
    for (i, hash) in hashes.iter().enumerate() {
        assert_eq!(
            brick.get(hash).unwrap().unwrap(),
            vec![i as u8; 16 * KIB as usize]
        );
    }
}

#[test]
fn brick_a_full_brick_refuses_the_next_block_and_stays_usable() {
    let mut brick = Brick::format(SimDisk::new(400 * KIB, 5), params()).unwrap();
    // One usable segment after the superblock sectors: 12 blocks fit.
    let mut last = None;
    for i in 0..12u8 {
        last = Some(brick.put(&[i; 16 * KIB as usize]).unwrap());
    }
    assert_eq!(
        brick.put(&[99u8; 16 * KIB as usize]).err().unwrap(),
        FsError::Full
    );
    assert_eq!(
        brick.get(&last.unwrap()).unwrap().unwrap(),
        vec![11u8; 16 * KIB as usize]
    );
}

#[test]
fn brick_an_oversized_and_an_empty_payload_are_refused_by_name() {
    let mut brick = small_brick(6);
    assert_eq!(brick.put(&[]).err().unwrap(), FsError::EmptyPayload);
    assert!(matches!(
        brick.put(&vec![0u8; 16 * KIB as usize + 1]).err().unwrap(),
        FsError::PayloadTooLarge { .. }
    ));
}

#[test]
fn brick_a_corrupt_superblock_slot_falls_back_to_its_twin() {
    let mut brick = small_brick(7);
    let hash = brick.put(b"resilient").unwrap();
    brick.flush().unwrap();
    let mut disk = brick.into_disk();
    disk.write_at(0, &[0xFF; 4096]).unwrap();
    disk.flush().unwrap();
    let brick = Brick::open(disk).unwrap();
    assert_eq!(brick.get(&hash).unwrap().unwrap(), b"resilient");
}

#[test]
fn brick_a_flipped_payload_bit_is_corruption_never_a_silent_answer() {
    let mut brick = small_brick(8);
    let hash = brick.put(&[3u8; 8192]).unwrap();
    brick.flush().unwrap();
    let mut disk = brick.into_disk();
    // Flip one payload byte of the first record: segment 0 starts after
    // the superblock and anchor sectors and the WAL area, its first
    // record after its header.
    let payload_at = 4 * 4096 + 64 * KIB + 4096 + RECORD_HEADER_LEN as u64 + 100;
    let mut byte = [0u8; 1];
    disk.read_at(payload_at, &mut byte).unwrap();
    disk.write_at(payload_at, &[byte[0] ^ 0x40]).unwrap();
    disk.flush().unwrap();
    let brick = Brick::open(disk).unwrap();
    // The scan already refuses the record; the block is simply absent
    // rather than wrong.
    assert_eq!(brick.get(&hash).unwrap(), None);
}
