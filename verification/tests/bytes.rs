use lumen_fs::brick::{Brick, BrickParams};
use lumen_fs::bytes::ByteView;
use lumen_fs::error::FsError;
use lumen_fs::pool::Pool;
use lumen_fs::sim::{SimDisk, SplitMix64};

const KIB: u64 = 1024;
const BLOCK: u64 = 4 * KIB;
/// Deliberately not block-aligned: the tail block is short.
const VDISK_SIZE: u64 = 50 * BLOCK + 1000;

fn pool(seed: u64) -> Pool<SimDisk> {
    let brick = Brick::format(
        SimDisk::new(8 * KIB * KIB, seed),
        BrickParams {
            pool_uuid: [0xAA; 16],
            brick_uuid: [0xBB; 16],
            block_size: BLOCK as u32,
            segment_size: 128 * KIB,
            wal_size: 64 * KIB,
            tier: 0,
            wal_holder: true,
        },
    )
    .unwrap();
    let mut pool = Pool::create(brick).unwrap();
    pool.create_vdisk(1, VDISK_SIZE, 0).unwrap();
    pool
}

#[test]
fn a_fresh_vdisk_reads_as_zeros_everywhere() {
    let mut pool = pool(1);
    assert_eq!(pool.read_bytes(1, 0, 100).unwrap(), vec![0u8; 100]);
    let tail = pool.read_bytes(1, VDISK_SIZE - 10, 10).unwrap();
    assert_eq!(tail, vec![0u8; 10]);
}

#[test]
fn reads_and_writes_beyond_the_edge_are_refused() {
    let mut pool = pool(2);
    assert!(matches!(
        pool.read_bytes(1, VDISK_SIZE - 5, 6).err().unwrap(),
        FsError::OutOfRange { .. }
    ));
    assert!(matches!(
        pool.write_bytes(1, VDISK_SIZE, b"x").err().unwrap(),
        FsError::OutOfRange { .. }
    ));
}

#[test]
fn an_unaligned_write_straddling_blocks_reads_back_exactly() {
    let mut pool = pool(3);
    let data: Vec<u8> = (0..(BLOCK as usize + 700))
        .map(|i| (i % 251) as u8)
        .collect();
    pool.write_bytes(1, BLOCK - 300, &data).unwrap();
    assert_eq!(
        pool.read_bytes(1, BLOCK - 300, data.len() as u64).unwrap(),
        data
    );
    // The bytes just outside the write are still zeros.
    assert_eq!(pool.read_bytes(1, BLOCK - 301, 1).unwrap(), vec![0]);
    let after = BLOCK - 300 + data.len() as u64;
    assert_eq!(pool.read_bytes(1, after, 1).unwrap(), vec![0]);
}

#[test]
fn the_short_tail_block_round_trips_to_the_last_byte() {
    let mut pool = pool(4);
    let data = vec![0xEE; 1000];
    pool.write_bytes(1, VDISK_SIZE - 1000, &data).unwrap();
    assert_eq!(pool.read_bytes(1, VDISK_SIZE - 1000, 1000).unwrap(), data);
}

#[test]
fn a_trim_unmaps_whole_blocks_and_spares_the_edges() {
    let mut pool = pool(5);
    let stripe = vec![0x77u8; (4 * BLOCK) as usize];
    pool.write_bytes(1, 0, &stripe).unwrap();
    // Trim from mid-block-0 to mid-block-3: blocks 1 and 2 go, the
    // partially-covered edges stay.
    pool.trim_bytes(1, 100, 3 * BLOCK).unwrap();
    assert_eq!(pool.read_bytes(1, 0, 100).unwrap(), vec![0x77; 100]);
    assert_eq!(
        pool.read_bytes(1, BLOCK, 2 * BLOCK).unwrap(),
        vec![0u8; (2 * BLOCK) as usize]
    );
    assert_eq!(
        pool.read_bytes(1, 3 * BLOCK + 100, 100).unwrap(),
        vec![0x77; 100]
    );
}

/// The suite's centerpiece: seeded byte-level workloads checked
/// against a shadow buffer, across flushes, checkpoints, and reopens.
#[test]
fn random_byte_workloads_agree_with_a_shadow_buffer() {
    for seed in 0..12u64 {
        let mut rng = SplitMix64::new(seed.wrapping_mul(0x0B17E5));
        let mut pool = pool(100 + seed);
        let mut shadow = vec![0u8; VDISK_SIZE as usize];

        for round in 0..60 {
            let roll = rng.next_below(100);
            if roll < 55 {
                let offset = rng.next_below(VDISK_SIZE);
                let len = 1 + rng.next_below((3 * BLOCK).min(VDISK_SIZE - offset));
                let mut data = vec![0u8; len as usize];
                rng.fill(&mut data);
                pool.write_bytes(1, offset, &data).unwrap();
                shadow[offset as usize..(offset + len) as usize].copy_from_slice(&data);
            } else if roll < 70 {
                let offset = rng.next_below(VDISK_SIZE);
                let len = 1 + rng.next_below((4 * BLOCK).min(VDISK_SIZE - offset));
                pool.trim_bytes(1, offset, len).unwrap();
                // Mirror the advisory semantics exactly: only blocks
                // covered whole go to zeros.
                let first = offset.div_ceil(BLOCK);
                let end = offset + len;
                let bound = if end == VDISK_SIZE {
                    VDISK_SIZE.div_ceil(BLOCK)
                } else {
                    end / BLOCK
                };
                for block in first..bound {
                    let from = (block * BLOCK) as usize;
                    let to = ((block + 1) * BLOCK).min(VDISK_SIZE) as usize;
                    shadow[from..to].fill(0);
                }
            } else if roll < 85 {
                let offset = rng.next_below(VDISK_SIZE);
                let len = 1 + rng.next_below((3 * BLOCK).min(VDISK_SIZE - offset));
                assert_eq!(
                    pool.read_bytes(1, offset, len).unwrap(),
                    shadow[offset as usize..(offset + len) as usize].to_vec(),
                    "seed {seed} round {round}"
                );
            } else if roll < 95 {
                pool.flush().unwrap();
            } else {
                pool.checkpoint().unwrap();
            }
        }

        pool.checkpoint().unwrap();
        let mut pool = Pool::open(Brick::open(pool.into_brick().into_disk()).unwrap()).unwrap();
        assert_eq!(
            pool.read_bytes(1, 0, VDISK_SIZE).unwrap(),
            shadow,
            "seed {seed}: the reopened vdisk disagrees with the shadow"
        );
    }
}
