use lumen_fs::disk::Disk;
use lumen_fs::error::FsError;
use lumen_fs::sim::SimDisk;

#[test]
fn a_read_sees_an_unflushed_write() {
    let mut disk = SimDisk::new(4096, 1);
    disk.write_at(100, b"hello").unwrap();
    let mut buf = [0u8; 5];
    disk.read_at(100, &mut buf).unwrap();
    assert_eq!(&buf, b"hello");
}

#[test]
fn a_flushed_write_survives_a_crash() {
    let mut disk = SimDisk::new(4096, 2);
    disk.write_at(0, b"durable").unwrap();
    disk.flush().unwrap();
    disk.crash();
    let mut buf = [0u8; 7];
    disk.read_at(0, &mut buf).unwrap();
    assert_eq!(&buf, b"durable");
}

#[test]
fn a_crash_with_the_same_seed_replays_the_same_fates() {
    let run = |seed: u64| {
        let mut disk = SimDisk::new(1 << 16, seed);
        for i in 0..32u64 {
            disk.write_at(i * 512, &[i as u8; 512]).unwrap();
        }
        disk.crash()
    };
    assert_eq!(run(42), run(42));
    assert_ne!(run(42), run(43));
}

#[test]
fn an_out_of_bounds_write_is_refused_whole() {
    let mut disk = SimDisk::new(1024, 3);
    let err = disk.write_at(1000, &[0u8; 100]).err().unwrap();
    assert!(matches!(err, FsError::OutOfBounds { .. }));
}

#[test]
fn overlapping_pending_writes_read_back_in_issue_order() {
    let mut disk = SimDisk::new(4096, 4);
    disk.write_at(0, b"aaaa").unwrap();
    disk.write_at(2, b"bb").unwrap();
    let mut buf = [0u8; 4];
    disk.read_at(0, &mut buf).unwrap();
    assert_eq!(&buf, b"aabb");
}
