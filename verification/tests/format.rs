use lumen_fs::error::FsError;
use lumen_fs::format::{
    record_span, Anchor, RecordHeader, SegmentHeader, Superblock, ANCHOR_AREA_START, FORMAT_VERSION, RECORD_HEADER_LEN, SECTOR_SIZE, WAL_AREA_START,
};
use lumen_fs::hash::{full_check, hash_block};

fn sample_superblock() -> Superblock {
    Superblock {
        block_size: 16384,
        segment_size: 1 << 20,
        segment_area_start: WAL_AREA_START + (64 << 10),
        segment_count: 7,
        generation: 3,
        wal_start: WAL_AREA_START,
        wal_size: 64 << 10,
        pool_uuid: [1; 16],
        brick_uuid: [2; 16],
        tier: 0,
        wal_holder: true,
    }
}

#[test]
fn a_superblock_round_trips_exactly() {
    let sb = sample_superblock();
    let decoded = Superblock::decode(&sb.encode()).unwrap().unwrap();
    assert_eq!(sb, decoded);
}

#[test]
fn a_single_flipped_superblock_bit_reads_as_no_superblock() {
    let mut buf = sample_superblock().encode();
    for bit_of in [0usize, 9, 17, 50, 60, 90, 110] {
        buf[bit_of] ^= 0x01;
        assert_eq!(Superblock::decode(&buf).unwrap(), None, "byte {bit_of}");
        buf[bit_of] ^= 0x01;
    }
}

#[test]
fn a_valid_superblock_from_the_future_is_an_error_not_a_blank() {
    let mut buf = sample_superblock().encode();
    buf[8..12].copy_from_slice(&(FORMAT_VERSION + 1).to_le_bytes());
    let check = full_check(&buf[0..96]);
    buf[96..128].copy_from_slice(&check);
    assert_eq!(
        Superblock::decode(&buf).err().unwrap(),
        FsError::UnsupportedVersion(FORMAT_VERSION + 1)
    );
}

#[test]
fn an_anchor_round_trips_and_a_flipped_bit_reads_as_no_anchor() {
    let anchor = Anchor {
        generation: 12,
        wal_replay_offset: WAL_AREA_START + 4096,
        wal_replay_seq: 88,
        wal_epoch: 4,
        era: 3,
        manifest_hash: [9; 32],
        roster: vec![],
    };
    let mut buf = anchor.encode();
    assert_eq!(Anchor::decode(&buf), Some(anchor));
    for bit_of in [0usize, 10, 20, 36, 44, 60, 100] {
        buf[bit_of] ^= 0x01;
        assert_eq!(Anchor::decode(&buf), None, "byte {bit_of}");
        buf[bit_of] ^= 0x01;
    }
}

#[test]
fn anchor_generations_alternate_between_the_two_slots() {
    assert_eq!(Anchor::slot_offset(2), ANCHOR_AREA_START);
    assert_eq!(Anchor::slot_offset(3), ANCHOR_AREA_START + SECTOR_SIZE);
    assert_ne!(Anchor::slot_offset(7), Anchor::slot_offset(8));
}

#[test]
fn a_segment_header_round_trips_and_pins_index_and_uuid() {
    let header = SegmentHeader {
        seq: 9,
        segment_index: 4,
        brick_uuid: [7; 16],
    };
    let buf = header.encode();
    assert_eq!(SegmentHeader::decode(&buf, 4, &[7; 16]), Some(header));
    // The same bytes read at another position, or by another brick, are
    // not a header at all.
    assert_eq!(SegmentHeader::decode(&buf, 5, &[7; 16]), None);
    assert_eq!(SegmentHeader::decode(&buf, 4, &[8; 16]), None);
}

#[test]
fn a_record_header_round_trips_and_pins_its_seq() {
    let header = RecordHeader {
        seq: 12,
        length: 100,
        hash: hash_block(b"payload"),
    };
    let buf = header.encode();
    assert_eq!(RecordHeader::decode(&buf, 12, 16384), Some(header));
    // A stale incarnation's record ends the scan.
    assert_eq!(RecordHeader::decode(&buf, 13, 16384), None);
    // A length beyond the pool's block size is not a record.
    assert_eq!(RecordHeader::decode(&buf, 12, 64), None);
}

#[test]
fn a_record_span_is_sector_aligned_and_minimal() {
    assert_eq!(record_span(1), SECTOR_SIZE);
    assert_eq!(
        record_span((SECTOR_SIZE - RECORD_HEADER_LEN as u64) as u32),
        SECTOR_SIZE
    );
    assert_eq!(
        record_span((SECTOR_SIZE - RECORD_HEADER_LEN as u64 + 1) as u32),
        2 * SECTOR_SIZE
    );
    assert_eq!(record_span(16384), 5 * SECTOR_SIZE);
}
