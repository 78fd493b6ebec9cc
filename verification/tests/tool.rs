//! The burn-in's rules and the block device wire.

use lumen_fs::brick::BrickStats;
use lumen_fs::burn::{
    geometry, identities, judge, next_collect_below, op_payload, op_roll, op_target, remedy, replay, should_collect, Remedy, Tried, Verdict,
    BURN_BATCH,
};
use lumen_fs::error::FsError;
use lumen_fs::hash::hash_block;
use lumen_fs::nbd::{
    answer_option, engine_errno, export_info, export_reply, greeting, option_reply, read_option, read_request, simple_reply, wants_no_zeroes,
    work_of, OptionAnswer, Request, Work, CMD_TRIM, CMD_WRITE, EINVAL, EIO, MAX_REQUEST, OPTS_MAGIC, OPT_ABORT, OPT_EXPORT_NAME, OPT_GO, OPT_INFO,
    REP_ACK, REQUEST_MAGIC, TRANSMISSION_FLAGS,
};
use lumen_fs::sim::SplitMix64;

#[test]
fn operations_follow_from_the_seed_and_their_number() {
    assert_eq!(op_roll(0, 0), SplitMix64::new(0).next_u64());
    assert_eq!(op_roll(7, 3), SplitMix64::new(7 ^ 3u64.wrapping_mul(0x9E37_79B9_7F4A_7C15)).next_u64());
    let mut want = vec![0u8; 100];
    SplitMix64::new(7 ^ 3 ^ 0x5AFE_D00D_5AFE_D00D).fill(&mut want);
    assert_eq!(op_payload(7, 3, 100), want);
    for n in 0..200u64 {
        let (index, trim) = op_target(9, n, 50);
        assert!((1..50).contains(&index));
        assert_eq!(trim, op_roll(9, n) % 10 == 0);
        assert_eq!(index, 1 + op_roll(9, n) % 49);
    }
}

#[test]
fn a_replay_keeps_the_last_touch_of_each_block() {
    let blocks = 12u64;
    let touched = replay(5, 1, BURN_BATCH, blocks);
    let mut want: Vec<Option<Option<u64>>> = vec![None; blocks as usize];
    for n in 1..=BURN_BATCH {
        let (index, trim) = op_target(5, n, blocks);
        want[index as usize] = Some(if trim { None } else { Some(n) });
    }
    assert_eq!(touched, want);
    assert_eq!(touched[0], None);
}

#[test]
fn a_block_is_judged_by_both_histories() {
    let acked = op_payload(1, 4, 64);
    let newer = op_payload(1, 9, 64);
    assert_eq!(judge(1, &acked, Some(Some(4)), Some(Some(9))), Verdict::Exact);
    assert_eq!(judge(1, &newer, Some(Some(4)), Some(Some(9))), Verdict::Unacknowledged);
    assert_eq!(judge(1, &newer, Some(Some(4)), None), Verdict::Wrong);
    assert_eq!(judge(1, &[0; 64], None, None), Verdict::Exact);
    assert_eq!(judge(1, &[0; 64], Some(None), None), Verdict::Exact);
    assert_eq!(judge(1, &[0; 64], Some(Some(4)), Some(None)), Verdict::Unacknowledged);
    assert_eq!(judge(1, &[1; 64], None, None), Verdict::Wrong);
}

#[test]
fn each_remedy_is_tried_once() {
    let mut tried = Tried { checkpointed: false, collected: false };
    assert_eq!(remedy(&FsError::WalFull, &mut tried), Some(Remedy::Checkpoint));
    assert_eq!(remedy(&FsError::WalFull, &mut tried), None);
    assert_eq!(remedy(&FsError::Full, &mut tried), Some(Remedy::Collect));
    assert_eq!(remedy(&FsError::Full, &mut tried), None);
    assert_eq!(remedy(&FsError::Suspended, &mut tried), None);
    let mut tried = Tried { checkpointed: false, collected: false };
    assert_eq!(remedy(&FsError::Full, &mut tried), Some(Remedy::Collect));
    assert_eq!(remedy(&FsError::WalFull, &mut tried), None);
}

#[test]
fn collecting_is_asked_for_on_the_way_down() {
    let space = BrickStats { blocks: 0, segments_total: 40, segments_live: 0, segments_free: 9, payload_bytes: 0 };
    assert!(should_collect(&space, u64::MAX));
    assert!(!should_collect(&space, 9));
    let roomy = BrickStats { blocks: 0, segments_total: 40, segments_live: 0, segments_free: 10, payload_bytes: 0 };
    assert!(!should_collect(&roomy, u64::MAX));
    assert_eq!(next_collect_below(3, 5), u64::MAX);
    assert_eq!(next_collect_below(3, 3), 2);
    assert_eq!(next_collect_below(0, 0), 0);
}

#[test]
fn small_files_get_small_geometry() {
    assert_eq!(geometry((1 << 30) - 1), (4 << 20, 8 << 20));
    assert_eq!(geometry(1 << 30), (64 << 20, 64 << 20));
    let seed = hash_block(b"identity");
    let (pool, brick) = identities(&seed);
    assert_eq!(pool, seed.as_bytes()[..16]);
    assert_eq!(brick, seed.as_bytes()[16..]);
}

#[test]
fn the_wire_is_big_endian() {
    let mut want = b"NBDMAGICIHAVEOPT".to_vec();
    want.extend_from_slice(&[0, 3]);
    assert_eq!(greeting(), want);
    assert!(wants_no_zeroes(&[0, 0, 0, 3]));
    assert!(!wants_no_zeroes(&[0, 0, 0, 1]));

    let mut head = OPTS_MAGIC.to_be_bytes().to_vec();
    head.extend_from_slice(&OPT_GO.to_be_bytes());
    head.extend_from_slice(&5u32.to_be_bytes());
    let option = read_option(&head).unwrap();
    assert_eq!((option.option, option.len), (OPT_GO, 5));
    head[15] = 1;
    head[12..16].copy_from_slice(&(MAX_REQUEST + 1).to_be_bytes());
    assert_eq!(read_option(&head), None);
    head[0] ^= 1;
    assert_eq!(read_option(&head), None);

    let mut want = (1u64 << 33).to_be_bytes().to_vec();
    want.extend_from_slice(&TRANSMISSION_FLAGS.to_be_bytes());
    assert_eq!(export_reply(1 << 33, true), want);
    want.extend_from_slice(&[0; 124]);
    assert_eq!(export_reply(1 << 33, false), want);
    assert_eq!(export_info(9), [0, 0, 0, 0, 0, 0, 0, 0, 0, 9, 0, 37]);

    let mut want = 0x0003_e889_0455_65a9u64.to_be_bytes().to_vec();
    want.extend_from_slice(&OPT_INFO.to_be_bytes());
    want.extend_from_slice(&REP_ACK.to_be_bytes());
    want.extend_from_slice(&3u32.to_be_bytes());
    want.extend_from_slice(b"xyz");
    assert_eq!(option_reply(OPT_INFO, REP_ACK, b"xyz"), want);

    let mut want = 0x6744_6698u32.to_be_bytes().to_vec();
    want.extend_from_slice(&EIO.to_be_bytes());
    want.extend_from_slice(&77u64.to_be_bytes());
    want.extend_from_slice(b"data");
    assert_eq!(simple_reply(EIO, 77, b"data"), want);
}

#[test]
fn requests_are_taken_apart_and_sorted() {
    let mut head = REQUEST_MAGIC.to_be_bytes().to_vec();
    head.extend_from_slice(&[0, 0]);
    head.extend_from_slice(&CMD_TRIM.to_be_bytes());
    head.extend_from_slice(&11u64.to_be_bytes());
    head.extend_from_slice(&(1u64 << 40).to_be_bytes());
    head.extend_from_slice(&4096u32.to_be_bytes());
    let request = read_request(&head).unwrap();
    assert_eq!(request, Request { kind: CMD_TRIM, cookie: 11, offset: 1 << 40, length: 4096 });
    head[3] ^= 1;
    assert_eq!(read_request(&head), None);

    let of = |kind: u16, length: u32| work_of(&Request { kind, cookie: 0, offset: 0, length });
    assert_eq!(of(0, MAX_REQUEST), Work::Read);
    assert_eq!(of(0, MAX_REQUEST + 1), Work::Invalid);
    assert_eq!(of(CMD_WRITE, MAX_REQUEST), Work::Write);
    assert_eq!(of(CMD_WRITE, MAX_REQUEST + 1), Work::Drop);
    assert_eq!(of(2, 0), Work::Leave);
    assert_eq!(of(3, 0), Work::Flush);
    assert_eq!(of(4, u32::MAX), Work::Trim);
    assert_eq!(of(9, 0), Work::Invalid);

    assert_eq!(answer_option(OPT_EXPORT_NAME), OptionAnswer::Export);
    assert_eq!(answer_option(OPT_GO), OptionAnswer::Info { go: true });
    assert_eq!(answer_option(OPT_INFO), OptionAnswer::Info { go: false });
    assert_eq!(answer_option(OPT_ABORT), OptionAnswer::Leave);
    assert_eq!(answer_option(99), OptionAnswer::Unsupported);

    assert_eq!(engine_errno(&FsError::OutOfRange { index: 1, capacity: 1 }), EINVAL);
    assert_eq!(engine_errno(&FsError::OutOfBounds { offset: 1, len: 1, disk_size: 1 }), EINVAL);
    assert_eq!(engine_errno(&FsError::Full), EIO);
}
