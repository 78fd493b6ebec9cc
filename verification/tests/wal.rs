use lumen_fs::brick::{Brick, BrickParams};
use lumen_fs::error::FsError;
use lumen_fs::sim::SimDisk;
use lumen_fs::wal::{frame_len, Wal};

const KIB: u64 = 1024;

fn brick(seed: u64) -> Brick<SimDisk> {
    Brick::format(
        SimDisk::new(1024 * KIB, seed),
        BrickParams {
            pool_uuid: [1; 16],
            brick_uuid: [2; 16],
            block_size: 4 * KIB as u32,
            segment_size: 64 * KIB,
            wal_size: 16 * KIB,
            tier: 0,
            wal_holder: true,
        },
    )
    .unwrap()
}

fn fresh_wal(brick: &Brick<SimDisk>) -> Wal {
    let (start, size) = brick.wal_bounds();
    Wal::empty(start, size, start, 1, 0)
}

#[test]
fn appended_frames_recover_in_order() {
    let mut brick = brick(1);
    let mut wal = fresh_wal(&brick);
    for i in 0..5u8 {
        wal.append(&mut brick, &[i; 10]).unwrap();
    }
    brick.flush().unwrap();
    let (start, _) = brick.wal_bounds();
    let frames = Wal::recover(&brick, start, 1, 0).unwrap();
    assert_eq!(frames.len(), 5);
    for (i, frame) in frames.iter().enumerate() {
        assert_eq!(frame.payload, vec![i as u8; 10]);
        assert_eq!(frame.seq, 1 + i as u64);
    }
}

#[test]
fn a_frame_that_cannot_fit_wraps_and_recovery_follows_it() {
    let mut brick = brick(2);
    let mut wal = fresh_wal(&brick);
    // Fill most of the 16 KiB ring, retire, then append across the end.
    let big = vec![7u8; 3000];
    for _ in 0..4 {
        wal.append(&mut brick, &big).unwrap();
    }
    wal.retire_to_cursor();
    let (cursor, next_seq) = wal.position();
    wal.append(&mut brick, &big).unwrap(); // fits before the end
    wal.append(&mut brick, &big).unwrap(); // must wrap to the start
    brick.flush().unwrap();
    let frames = Wal::recover(&brick, cursor, next_seq, 0).unwrap();
    assert_eq!(frames.len(), 2);
    assert_eq!(frames[1].payload, big);
}

#[test]
fn an_append_that_would_lap_live_history_is_refused() {
    let mut brick = brick(3);
    let mut wal = fresh_wal(&brick);
    let chunk = vec![1u8; 1000];
    let mut appended = 0;
    loop {
        match wal.append(&mut brick, &chunk) {
            Ok(_) => appended += 1,
            Err(FsError::WalFull) => break,
            Err(other) => panic!("{other:?}"),
        }
    }
    // 16 KiB ring, 1064-byte frames: it must refuse before the ring
    // physically overflows, having accepted a healthy number.
    assert!((10..16).contains(&appended), "appended {appended}");
    // Retiring live history makes room again.
    wal.retire_to_cursor();
    wal.append(&mut brick, &chunk).unwrap();
}

#[test]
fn recovery_stops_at_a_torn_frame_and_keeps_what_came_before() {
    let mut brick = brick(4);
    let mut wal = fresh_wal(&brick);
    wal.append(&mut brick, &[1; 100]).unwrap();
    wal.append(&mut brick, &[2; 100]).unwrap();
    brick.flush().unwrap();
    let (_, second_end) = {
        let (start, _) = brick.wal_bounds();
        (start, start + 2 * frame_len(100))
    };
    // Corrupt the second frame's check bytes.
    brick.aux_write(second_end - 4, &[0xFF; 4]).unwrap();
    brick.flush().unwrap();
    let (start, _) = brick.wal_bounds();
    let frames = Wal::recover(&brick, start, 1, 0).unwrap();
    assert_eq!(frames.len(), 1);
    assert_eq!(frames[0].payload, vec![1; 100]);
}
