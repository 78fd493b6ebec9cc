use lumen_fs::brick::{Brick, BrickParams};
use lumen_fs::disk::Disk;
use lumen_fs::error::FsError;
use lumen_fs::hash::hash_block;
use lumen_fs::map::{depth_for, entries_per_node};
use lumen_fs::pool::Pool;
use lumen_fs::sim::SimDisk;

const KIB: u64 = 1024;
const BLOCK: usize = 4 * KIB as usize;

fn params() -> BrickParams {
    BrickParams {
        pool_uuid: [0xAA; 16],
        brick_uuid: [0xBB; 16],
        block_size: BLOCK as u32,
        segment_size: 128 * KIB,
        wal_size: 32 * KIB,
        tier: 0,
        wal_holder: true,
    }
}

fn pool(seed: u64) -> Pool<SimDisk> {
    Pool::create(Brick::format(SimDisk::new(8 * KIB * KIB, seed), params()).unwrap()).unwrap()
}

fn reopen(pool: Pool<SimDisk>) -> Pool<SimDisk> {
    Pool::open(Brick::open(pool.into_brick().into_disk()).unwrap()).unwrap()
}

#[test]
fn a_two_phase_checkpoint_lands_like_a_single_phase_one() {
    let mut pool = pool(40);
    pool.create_vdisk(7, 40 * BLOCK as u64, 0).unwrap();
    pool.write_block(7, 3, b"two-phase payload").unwrap();
    let ticket = pool.checkpoint_begin().unwrap();
    pool.flush().unwrap();
    assert!(pool.checkpoint_commit(ticket).unwrap());
    let pool = reopen(pool);
    assert_eq!(
        pool.read_block(7, 3).unwrap().unwrap(),
        b"two-phase payload"
    );
}

#[test]
fn a_ticket_crossed_by_another_checkpoint_is_refused() {
    let mut pool = pool(41);
    pool.create_vdisk(7, 40 * BLOCK as u64, 0).unwrap();
    pool.write_block(7, 0, b"first").unwrap();
    let ticket = pool.checkpoint_begin().unwrap();
    // Another checkpoint lands between the phases — the ticket's
    // snapshot no longer describes the anchored history.
    pool.checkpoint().unwrap();
    pool.flush().unwrap();
    assert!(!pool.checkpoint_commit(ticket).unwrap());
    // Refused, not corrupted: the pool still reopens on the
    // crossing checkpoint's anchor.
    let pool = reopen(pool);
    assert_eq!(pool.read_block(7, 0).unwrap().unwrap(), b"first");
}

#[test]
fn a_dropped_ticket_loses_nothing() {
    let mut pool = pool(42);
    pool.create_vdisk(7, 40 * BLOCK as u64, 0).unwrap();
    pool.write_block(7, 1, b"before the begin").unwrap();
    let ticket = pool.checkpoint_begin().unwrap();
    // A failed drain drops the ticket on the floor: no anchor moved,
    // no WAL retired — the old anchor plus replay still owns it all.
    drop(ticket);
    pool.write_block(7, 2, b"after the drop").unwrap();
    pool.flush().unwrap();
    let pool = reopen(pool);
    assert_eq!(pool.read_block(7, 1).unwrap().unwrap(), b"before the begin");
    assert_eq!(pool.read_block(7, 2).unwrap().unwrap(), b"after the drop");
}

#[test]
fn mod_a_write_survives_reopen_through_the_wal_alone() {
    let mut pool = pool(1);
    pool.create_vdisk(7, 40 * BLOCK as u64, 0).unwrap();
    pool.write_block(7, 3, b"through the wal").unwrap();
    pool.flush().unwrap();
    // No checkpoint: reopen leans entirely on anchor + replay.
    let pool = reopen(pool);
    assert_eq!(pool.read_block(7, 3).unwrap().unwrap(), b"through the wal");
    assert_eq!(pool.read_block(7, 4).unwrap(), None);
    assert_eq!(pool.vdisks(), vec![(7, 40 * BLOCK as u64)]);
}

#[test]
fn mod_a_write_survives_reopen_through_the_tree_alone() {
    let mut pool = pool(2);
    pool.create_vdisk(1, 40 * BLOCK as u64, 0).unwrap();
    pool.write_block(1, 9, b"through the tree").unwrap();
    pool.checkpoint().unwrap();
    // The checkpoint retired the WAL: reopen leans on the manifest.
    let pool = reopen(pool);
    assert_eq!(pool.read_block(1, 9).unwrap().unwrap(), b"through the tree");
}

#[test]
fn mod_an_overwrite_reads_back_newest_before_and_after_checkpoint() {
    let mut pool = pool(3);
    pool.create_vdisk(1, 40 * BLOCK as u64, 0).unwrap();
    pool.write_block(1, 0, b"first").unwrap();
    pool.write_block(1, 0, b"second").unwrap();
    assert_eq!(pool.read_block(1, 0).unwrap().unwrap(), b"second");
    pool.checkpoint().unwrap();
    pool.write_block(1, 0, b"third").unwrap();
    assert_eq!(pool.read_block(1, 0).unwrap().unwrap(), b"third");
    let pool = reopen(pool);
    assert_eq!(pool.read_block(1, 0).unwrap().unwrap(), b"third");
}

#[test]
fn mod_a_depth_two_vdisk_round_trips_across_checkpoints() {
    let mut pool = pool(4);
    // 4 KiB blocks: 128 entries per node; 200 blocks needs depth 2.
    pool.create_vdisk(1, 200 * BLOCK as u64, 0).unwrap();
    pool.write_block(1, 0, b"low").unwrap();
    pool.write_block(1, 199, b"high").unwrap();
    pool.checkpoint().unwrap();
    pool.write_block(1, 150, b"mid").unwrap();
    pool.flush().unwrap();
    let pool = reopen(pool);
    assert_eq!(pool.read_block(1, 0).unwrap().unwrap(), b"low");
    assert_eq!(pool.read_block(1, 150).unwrap().unwrap(), b"mid");
    assert_eq!(pool.read_block(1, 199).unwrap().unwrap(), b"high");
    assert_eq!(pool.read_block(1, 100).unwrap(), None);
}

#[test]
fn mod_two_vdisks_do_not_bleed_into_each_other() {
    let mut pool = pool(5);
    pool.create_vdisk(1, 40 * BLOCK as u64, 0).unwrap();
    pool.create_vdisk(2, 40 * BLOCK as u64, 0).unwrap();
    pool.write_block(1, 5, b"one's data").unwrap();
    pool.write_block(2, 5, b"two's data").unwrap();
    pool.checkpoint().unwrap();
    let pool = reopen(pool);
    assert_eq!(pool.read_block(1, 5).unwrap().unwrap(), b"one's data");
    assert_eq!(pool.read_block(2, 5).unwrap().unwrap(), b"two's data");
}

#[test]
fn mod_a_full_wal_is_an_error_a_checkpoint_cures() {
    let mut pool = pool(6);
    pool.create_vdisk(1, 4000 * BLOCK as u64, 0).unwrap();
    let mut hit_full = false;
    for i in 0..4000u64 {
        match pool.write_block(1, i, &i.to_le_bytes()) {
            Ok(()) => {}
            Err(FsError::WalFull) => {
                hit_full = true;
                pool.checkpoint().unwrap();
                pool.write_block(1, i, &i.to_le_bytes()).unwrap();
                break;
            }
            Err(other) => panic!("{other:?}"),
        }
    }
    assert!(hit_full, "the ring never filled — grow the workload");
}

#[test]
fn mod_the_named_refusals_hold() {
    let mut pool = pool(7);
    pool.create_vdisk(1, 10 * BLOCK as u64, 0).unwrap();
    assert_eq!(
        pool.create_vdisk(1, 10 * BLOCK as u64, 0).err().unwrap(),
        FsError::VdiskExists(1)
    );
    assert_eq!(
        pool.write_block(9, 0, b"x").err().unwrap(),
        FsError::UnknownVdisk(9)
    );
    assert_eq!(
        pool.write_block(1, 10, b"x").err().unwrap(),
        FsError::OutOfRange {
            index: 10,
            capacity: 10
        }
    );
    assert_eq!(
        pool.read_block(1, 99).err().unwrap(),
        FsError::OutOfRange {
            index: 99,
            capacity: 10
        }
    );
}

#[test]
fn mod_an_empty_pool_reopens_empty_after_a_checkpoint() {
    let mut pool = pool(8);
    pool.checkpoint().unwrap();
    let pool = reopen(pool);
    assert_eq!(pool.vdisks(), vec![]);
}

#[test]
fn mod_a_trim_unmaps_through_wal_and_tree_alike() {
    let mut pool = pool(9);
    pool.create_vdisk(1, 40 * BLOCK as u64, 0).unwrap();
    pool.write_block(1, 3, b"here today").unwrap();
    pool.checkpoint().unwrap();
    pool.trim_block(1, 3).unwrap();
    // The trim overlays the checkpointed tree immediately...
    assert_eq!(pool.read_block(1, 3).unwrap(), None);
    pool.flush().unwrap();
    // ...survives reopen through the WAL...
    let mut pool = reopen(pool);
    assert_eq!(pool.read_block(1, 3).unwrap(), None);
    pool.checkpoint().unwrap();
    // ...and survives reopen through the folded tree.
    let mut pool = reopen(pool);
    assert_eq!(pool.read_block(1, 3).unwrap(), None);
    pool.write_block(1, 3, b"back again").unwrap();
    assert_eq!(pool.read_block(1, 3).unwrap().unwrap(), b"back again");
}

#[test]
fn mod_a_deleted_vdisk_is_gone_through_wal_and_manifest_alike() {
    let mut pool = pool(10);
    pool.create_vdisk(1, 10 * BLOCK as u64, 0).unwrap();
    pool.create_vdisk(2, 10 * BLOCK as u64, 0).unwrap();
    pool.checkpoint().unwrap();
    pool.delete_vdisk(1).unwrap();
    pool.flush().unwrap();
    let mut pool = reopen(pool);
    assert_eq!(pool.vdisks(), vec![(2, 10 * BLOCK as u64)]);
    assert_eq!(pool.read_block(1, 0).err().unwrap(), FsError::UnknownVdisk(1));
    pool.checkpoint().unwrap();
    let mut pool = reopen(pool);
    assert_eq!(pool.vdisks(), vec![(2, 10 * BLOCK as u64)]);
    // The id is free again — a new vdisk, not a resurrection.
    pool.create_vdisk(1, 20 * BLOCK as u64, 0).unwrap();
    assert_eq!(pool.read_block(1, 0).unwrap(), None);
}

#[test]
fn mod_a_collection_reclaims_overwritten_history_and_current_data_survives() {
    let mut pool = pool(11);
    pool.create_vdisk(1, 40 * BLOCK as u64, 0).unwrap();
    // Rounds of overwrites with checkpoints between: old data blocks,
    // old tree nodes, and old manifests all become garbage.
    for round in 0..6u8 {
        for index in 0..20u64 {
            let mut payload = vec![round; 3000];
            payload[0..8].copy_from_slice(&index.to_le_bytes());
            pool.write_block(1, index, &payload).unwrap();
        }
        pool.checkpoint().unwrap();
    }
    let stats = pool.collect_garbage().unwrap();
    assert!(stats.blocks_dropped > 0, "nothing collected: {stats:?}");
    assert!(stats.segments_freed > 0, "nothing reclaimed: {stats:?}");
    for index in 0..20u64 {
        let payload = pool.read_block(1, index).unwrap().unwrap();
        assert_eq!(payload[8], 5, "index {index} lost its last round");
    }
    let pool = reopen(pool);
    assert_eq!(pool.read_block(1, 19).unwrap().unwrap()[8], 5);
}

#[test]
fn mod_deleting_a_vdisk_and_collecting_returns_its_space() {
    let mut pool = pool(12);
    pool.create_vdisk(1, 40 * BLOCK as u64, 0).unwrap();
    pool.create_vdisk(2, 40 * BLOCK as u64, 0).unwrap();
    for index in 0..30u64 {
        pool.write_block(1, index, &[7u8; 2000]).unwrap();
        let mut other = vec![8u8; 2000];
        other[0..8].copy_from_slice(&index.to_le_bytes());
        pool.write_block(2, index, &other).unwrap();
    }
    pool.checkpoint().unwrap();
    pool.delete_vdisk(1).unwrap();
    let stats = pool.collect_garbage().unwrap();
    assert!(
        stats.blocks_dropped > 0,
        "the dead tree lingered: {stats:?}"
    );
    // The survivor is untouched, here and after reopen.
    let pool = reopen(pool);
    assert_eq!(
        pool.read_block(2, 12).unwrap().unwrap()[8..12],
        [8, 8, 8, 8]
    );
    assert_eq!(pool.vdisks().len(), 1);
}

#[test]
fn mod_a_brick_that_has_run_out_can_still_be_collected() {
    // The liveness hazard a real burn-in found on its third round: a
    // collection has to write before it can free, so a brick with
    // nothing left would be uncollectable exactly when collecting is
    // the only thing that helps. The reserve is what breaks that
    // circle, and this is the shape of the failure it prevents.
    let mut pool = pool(20);
    pool.create_vdisk(1, 200 * BLOCK as u64, 0).unwrap();
    let mut round = 0u8;
    loop {
        round = round.wrapping_add(1);
        let mut hit_full = false;
        for index in 0..200u64 {
            let mut payload = vec![round; 3000];
            payload[0..8].copy_from_slice(&index.to_le_bytes());
            match pool.write_block(1, index, &payload) {
                Ok(()) => {}
                Err(FsError::WalFull) => pool.checkpoint().unwrap(),
                Err(FsError::Full) => {
                    hit_full = true;
                    break;
                }
                Err(other) => panic!("{other:?}"),
            }
        }
        if hit_full {
            break;
        }
        assert!(round < 200, "the brick never filled");
    }

    // Out of room — and a collection must still run and give room back.
    let stats = pool.collect_garbage().unwrap();
    assert!(
        stats.segments_freed > 0,
        "the collection freed nothing: {stats:?}"
    );
    pool.write_block(1, 0, b"room again").unwrap();
    pool.checkpoint().unwrap();
    assert_eq!(pool.read_block(1, 0).unwrap().unwrap(), b"room again");
}

#[test]
fn mod_a_pool_worked_hard_keeps_storing_instead_of_only_collecting() {
    // The shape of a burn-in that reported twenty passing rounds while
    // doing nothing for sixteen of them: a caller collects below some
    // level, a collection stops at that same level, and from then on
    // every write buys a collection with nothing left to do. Progress
    // may become gradual near full — a copy-on-write store must move a
    // byte to place a byte — but it must not stop.
    let mut pool = pool(21);
    // A vdisk about half the pool, overwritten far past its size: the
    // regime where live data alone denies any generous free-space goal.
    let capacity = 220u64;
    pool.create_vdisk(1, capacity * BLOCK as u64, 0).unwrap();
    let quarter = pool.space().segments_total / 4;

    let mut written = 0u64;
    let mut collections = 0u64;
    for round in 0..12u8 {
        for index in 0..capacity {
            let mut payload = vec![round; 3000];
            payload[0..8].copy_from_slice(&index.to_le_bytes());
            // Make room and try again — a full ring wants a checkpoint,
            // a full brick wants a collection, and neither is a reason
            // to drop the write.
            for attempt in 0..3 {
                match pool.write_block(1, index, &payload) {
                    Ok(()) => {
                        written += 1;
                        break;
                    }
                    Err(FsError::WalFull) => pool.checkpoint().unwrap(),
                    Err(FsError::Full) => {
                        pool.collect_garbage().unwrap();
                        collections += 1;
                    }
                    Err(other) => panic!("{other:?}"),
                }
                assert!(
                    attempt < 2,
                    "block {index} would not go in after making room twice"
                );
            }
        }
        // Collect the way a caller should: on the way down, not at the
        // bottom — and then insist it actually bought headroom.
        if pool.space().segments_free <= quarter {
            pool.collect_garbage().unwrap();
            collections += 1;
            assert!(
                pool.space().segments_free > quarter,
                "round {round}: a collection left the caller still asking \
                 ({} free, asks at {quarter}) — every write from here pays \
                 for a collection that can do nothing",
                pool.space().segments_free,
            );
        }
    }

    assert_eq!(written, 12 * capacity, "writing stalled");
    assert!(collections > 0, "the pool never came under pressure");
    for index in 0..capacity {
        assert_eq!(pool.read_block(1, index).unwrap().unwrap()[8], 11);
    }
}

#[test]
fn a_lease_survives_a_restart() {
    // The whole reason it lives in the pool: a node that restarts must
    // know whether it may write before anyone tells it.
    let mut pool = pool(30);
    pool.create_vdisk(1, 40 * BLOCK as u64, 0).unwrap();
    pool.claim_lease(1, 7).unwrap();
    assert!(pool.may_write(1, 7));
    assert!(!pool.may_write(1, 8));
    pool.flush().unwrap();
    // Through the WAL...
    let mut pool = reopen(pool);
    assert!(pool.may_write(1, 7));
    pool.checkpoint().unwrap();
    // ...and through the manifest.
    let pool = reopen(pool);
    assert!(pool.may_write(1, 7));
    assert_eq!(pool.lease(1).unwrap().holder, 7);
}

#[test]
fn a_handover_moves_the_pen_exactly_once() {
    let mut pool = pool(31);
    pool.create_vdisk(1, 40 * BLOCK as u64, 0).unwrap();
    pool.claim_lease(1, 0).unwrap();

    // The window: the guest still runs on 0, so 0 still writes and 1
    // still may not. This is the invariant a two-primaries window is
    // always one mistake away from breaking.
    pool.begin_handover(1, 0, 1).unwrap();
    assert!(pool.may_write(1, 0), "the source stopped writing too early");
    assert!(
        !pool.may_write(1, 1),
        "the destination wrote during the window"
    );

    // The instant of handover.
    pool.relinquish_lease(1, 0, 1).unwrap();
    assert!(!pool.may_write(1, 0));
    assert!(pool.may_write(1, 1));
    assert_eq!(pool.lease(1).unwrap().handing_to, None);
}

#[test]
fn an_abandoned_migration_leaves_the_disk_where_it_was() {
    let mut pool = pool(32);
    pool.create_vdisk(1, 40 * BLOCK as u64, 0).unwrap();
    pool.claim_lease(1, 0).unwrap();
    pool.begin_handover(1, 0, 1).unwrap();
    pool.abort_handover(1, 0).unwrap();
    assert!(pool.may_write(1, 0));
    assert!(!pool.may_write(1, 1));
    // And with the window closed, the destination cannot take it.
    assert_eq!(
        pool.relinquish_lease(1, 0, 1).err().unwrap(),
        FsError::NoSuchHandover(1)
    );
}

#[test]
fn a_held_lease_is_refused_to_everyone_but_its_holder() {
    let mut pool = pool(33);
    pool.create_vdisk(1, 40 * BLOCK as u64, 0).unwrap();
    pool.claim_lease(1, 0).unwrap();
    assert_eq!(
        pool.claim_lease(1, 1).err().unwrap(),
        FsError::LeaseHeld {
            vdisk: 1,
            holder: 0
        }
    );
    // The holder may re-claim its own without ceremony.
    pool.claim_lease(1, 0).unwrap();
    // And nobody may hand over what they do not hold.
    assert_eq!(
        pool.begin_handover(1, 1, 0).err().unwrap(),
        FsError::NotWriter(1)
    );
}

#[test]
fn a_new_era_retires_the_leases_of_the_one_it_replaced() {
    // A survivor that has been told its peer is dead is not bound by
    // the arrangement it had with the peer — otherwise a failover
    // could never take the pen, and the vdisk would be unwritable
    // exactly when someone needed to save it.
    let mut pool = pool(34);
    pool.create_vdisk(1, 40 * BLOCK as u64, 0).unwrap();
    pool.claim_lease(1, 0).unwrap();
    assert!(pool.may_write(1, 0));

    pool.bump_era_to(2).unwrap();
    assert!(!pool.may_write(1, 0), "a stale lease still bound the pool");
    pool.claim_lease(1, 1).unwrap();
    assert!(pool.may_write(1, 1));
    let pool = reopen(pool);
    assert!(pool.may_write(1, 1));
}

#[test]
fn an_era_bump_moves_forward_or_not_at_all() {
    // The bump's number is agreed above this pool (two survivors
    // minting independently could disagree), so what the pool itself
    // enforces is only that eras rise: a target at or below the
    // current era orders nothing and is refused.
    let mut pool = pool(35);
    assert_eq!(pool.era(), 1);
    pool.bump_era_to(2).unwrap();
    assert_eq!(pool.era(), 2);
    assert!(pool.bump_era_to(2).is_err(), "a flat bump was accepted");
    assert!(
        pool.bump_era_to(1).is_err(),
        "a backwards bump was accepted"
    );
    pool.bump_era_to(8).unwrap();
    assert_eq!(pool.era(), 8, "the agreed number was not adopted");
    let pool = reopen(pool);
    assert_eq!(pool.era(), 8, "the era bump was not anchored");
}

#[test]
fn sync_pins_hold_the_offered_state_through_a_collection() {
    // A resync source keeps writing past the checkpoint it offered, so
    // its own next collection would sweep the offer's trees — unless
    // the pins hold them exactly as live as the present.
    let mut pool = pool(36);
    pool.create_vdisk(1, 40 * BLOCK as u64, 0).unwrap();
    let old_payloads: Vec<Vec<u8>> = (0..20u64)
        .map(|index| {
            let mut data = vec![0u8; 600];
            data[0..8].copy_from_slice(&index.to_le_bytes());
            data
        })
        .collect();
    for (index, data) in old_payloads.iter().enumerate() {
        pool.write_block(1, index as u64, data).unwrap();
    }
    pool.checkpoint().unwrap();
    let (_, vdisks, _) = pool.sync_manifest();
    let root = vdisks[0].3.expect("a checkpointed vdisk has a root");
    let depth = depth_for(
        (40 * BLOCK as u64).div_ceil(BLOCK as u64),
        entries_per_node(BLOCK as u32),
    );
    pool.pin_sync(1, vec![(root, depth, 0)]);

    // The offer becomes history: every index rewritten, checkpointed,
    // collected.
    for index in 0..20u64 {
        let mut data = vec![0u8; 600];
        data[0..8].copy_from_slice(&index.to_le_bytes());
        data[8] = 0xEE;
        pool.write_block(1, index, &data).unwrap();
    }
    pool.checkpoint().unwrap();
    pool.collect_garbage().unwrap();
    for data in &old_payloads {
        assert!(
            pool.has_block(0, &hash_block(data)),
            "a collection swept a pinned offer's block"
        );
    }
    assert!(pool.has_block(0, &root), "the pinned root itself was swept");

    // Unpinned, the offer is garbage like any other history.
    pool.unpin_sync(1);
    pool.collect_garbage().unwrap();
    for data in &old_payloads {
        assert!(
            !pool.has_block(0, &hash_block(data)),
            "an unpinned offer survived collection"
        );
    }
}

#[test]
fn an_inflight_payload_survives_a_collection_until_its_op_lands() {
    // A replicated payload arrives ahead of the op that references
    // it. In that gap nothing durable reaches the block, so an
    // unpinned collection would sweep it — and the op's replay would
    // then name a block the store does not hold. The window was
    // reachable at two nodes; the simulation had simply never
    // collected inside it.
    let mut pool = pool(37);
    pool.create_vdisk(1, 40 * BLOCK as u64, 0).unwrap();
    pool.write_block(1, 0, b"traffic to collect around")
        .unwrap();
    pool.checkpoint().unwrap();
    let payload = vec![0x5A; 600];
    let hash = pool.put_block(0, &payload).unwrap();
    pool.pin_inflight(9, 0, hash);
    pool.collect_garbage().unwrap();
    assert!(
        pool.has_block(0, &hash),
        "a collection swept a payload still waiting on its op"
    );
    // The op lands; the pin comes off; the block is now reachable
    // through the map instead.
    pool.write_block_prehashed(1, 1, hash).unwrap();
    pool.clear_inflight(9, 0, &hash);
    pool.checkpoint().unwrap();
    pool.collect_garbage().unwrap();
    assert!(pool.has_block(0, &hash), "a mapped block was swept");
    // And a pin whose op never arrives dies with its session.
    let orphan = pool.put_block(0, &vec![0x5B; 600]).unwrap();
    pool.pin_inflight(9, 0, orphan);
    pool.drop_session_pins(9);
    pool.collect_garbage().unwrap();
    assert!(
        !pool.has_block(0, &orphan),
        "a dead session's inflight pin outlived it"
    );
}

#[test]
fn mod_a_healthy_pool_scrubs_clean() {
    let mut pool = pool(13);
    pool.create_vdisk(1, 40 * BLOCK as u64, 0).unwrap();
    for index in 0..10u64 {
        pool.write_block(1, index, &index.to_le_bytes()).unwrap();
    }
    pool.checkpoint().unwrap();
    let report = pool.scrub().unwrap();
    assert!(report.blocks_verified > 10, "{report:?}");
    assert_eq!(report.corrupt, vec![]);
    assert_eq!(report.missing, vec![]);
}

#[test]
fn mod_a_snapshot_pins_the_past_while_the_present_moves_on() {
    let mut pool = pool(15);
    pool.create_vdisk(1, 40 * BLOCK as u64, 0).unwrap();
    pool.write_block(1, 5, b"the past").unwrap();
    pool.snapshot_vdisk(1, 100).unwrap();
    pool.write_block(1, 5, b"the present").unwrap();
    pool.write_block(1, 6, b"only now").unwrap();
    pool.checkpoint().unwrap();
    assert_eq!(pool.read_block(1, 5).unwrap().unwrap(), b"the present");
    assert_eq!(
        pool.read_snapshot_block(1, 100, 5).unwrap().unwrap(),
        b"the past"
    );
    assert_eq!(pool.read_snapshot_block(1, 100, 6).unwrap(), None);
    // Both survive a reopen.
    let pool = reopen(pool);
    assert_eq!(pool.read_block(1, 6).unwrap().unwrap(), b"only now");
    assert_eq!(
        pool.read_snapshot_block(1, 100, 5).unwrap().unwrap(),
        b"the past"
    );
    assert_eq!(pool.snapshots(), vec![(1, 100, 40 * BLOCK as u64)]);
}

#[test]
fn mod_a_rollback_discards_the_present_including_unflushed_writes() {
    let mut pool = pool(16);
    pool.create_vdisk(1, 40 * BLOCK as u64, 0).unwrap();
    pool.write_block(1, 0, b"keep me").unwrap();
    pool.snapshot_vdisk(1, 1).unwrap();
    pool.write_block(1, 0, b"checkpointed over").unwrap();
    pool.checkpoint().unwrap();
    pool.write_block(1, 0, b"not even flushed").unwrap();
    pool.write_block(1, 3, b"collateral").unwrap();
    pool.rollback_vdisk(1, 1).unwrap();
    assert_eq!(pool.read_block(1, 0).unwrap().unwrap(), b"keep me");
    assert_eq!(pool.read_block(1, 3).unwrap(), None);
    // Durable without any further flush: rollback is checkpoint-grade.
    let pool = reopen(pool);
    assert_eq!(pool.read_block(1, 0).unwrap().unwrap(), b"keep me");
}

#[test]
fn mod_a_clone_diverges_from_its_source_without_disturbing_it() {
    let mut pool = pool(17);
    pool.create_vdisk(1, 40 * BLOCK as u64, 0).unwrap();
    pool.write_block(1, 2, b"shared history").unwrap();
    pool.snapshot_vdisk(1, 1).unwrap();
    pool.clone_vdisk(9, 1, 1).unwrap();
    assert_eq!(pool.read_block(9, 2).unwrap().unwrap(), b"shared history");
    pool.write_block(9, 2, b"the clone's own").unwrap();
    pool.write_block(1, 2, b"the source's own").unwrap();
    pool.checkpoint().unwrap();
    let pool = reopen(pool);
    assert_eq!(pool.read_block(9, 2).unwrap().unwrap(), b"the clone's own");
    assert_eq!(pool.read_block(1, 2).unwrap().unwrap(), b"the source's own");
    assert_eq!(
        pool.read_snapshot_block(1, 1, 2).unwrap().unwrap(),
        b"shared history"
    );
    assert_eq!(pool.vdisks().len(), 2);
}

#[test]
fn mod_a_vdisk_with_snapshots_refuses_to_die_until_they_do() {
    let mut pool = pool(18);
    pool.create_vdisk(1, 10 * BLOCK as u64, 0).unwrap();
    pool.snapshot_vdisk(1, 7).unwrap();
    assert_eq!(pool.delete_vdisk(1).err().unwrap(), FsError::HasSnapshots(1));
    pool.delete_snapshot(1, 7).unwrap();
    pool.delete_vdisk(1).unwrap();
    assert_eq!(
        pool.delete_snapshot(1, 7).err().unwrap(),
        FsError::UnknownSnapshot {
            vdisk: 1,
            snapshot: 7
        }
    );
}

#[test]
fn mod_gc_spares_what_a_snapshot_pins_and_reclaims_it_when_unpinned() {
    let mut pool = pool(19);
    pool.create_vdisk(1, 40 * BLOCK as u64, 0).unwrap();
    for index in 0..20u64 {
        let mut payload = vec![0xAB; 3000];
        payload[0..8].copy_from_slice(&index.to_le_bytes());
        pool.write_block(1, index, &payload).unwrap();
    }
    pool.snapshot_vdisk(1, 1).unwrap();
    // Overwrite everything: without the pin, the old blocks would all
    // be garbage now.
    for index in 0..20u64 {
        let mut payload = vec![0xCD; 3000];
        payload[0..8].copy_from_slice(&index.to_le_bytes());
        pool.write_block(1, index, &payload).unwrap();
    }
    pool.collect_garbage().unwrap();
    let old = pool.read_snapshot_block(1, 1, 12).unwrap().unwrap();
    assert_eq!(old[8], 0xAB, "the pinned past was swept");
    // Unpin and collect again: now the history goes.
    pool.delete_snapshot(1, 1).unwrap();
    let stats = pool.collect_garbage().unwrap();
    assert!(
        stats.blocks_dropped >= 20,
        "unpinned history lingered: {stats:?}"
    );
    assert_eq!(pool.read_block(1, 12).unwrap().unwrap()[8], 0xCD);
}

#[test]
fn mod_scrub_names_the_vdisk_block_whose_data_rotted_away() {
    let mut pool = pool(14);
    pool.create_vdisk(1, 40 * BLOCK as u64, 0).unwrap();
    let marker = b"scrub will come looking for exactly these bytes";
    pool.write_block(1, 6, marker).unwrap();
    pool.checkpoint().unwrap();
    // Rot the payload on the raw device, then reopen: the recovery scan
    // refuses the record, so the store no longer holds a block the tree
    // still references.
    let mut disk = pool.into_brick().into_disk();
    let mut whole = vec![0u8; disk.size() as usize];
    disk.read_at(0, &mut whole).unwrap();
    let at = whole
        .windows(marker.len())
        .position(|w| w == marker)
        .expect("the payload must be somewhere on the disk") as u64;
    disk.write_at(at, &[!marker[0]]).unwrap();
    disk.flush().unwrap();
    let pool = Pool::open(Brick::open(disk).unwrap()).unwrap();
    let report = pool.scrub().unwrap();
    assert_eq!(report.missing, vec![(1, 6)]);
    assert_eq!(
        pool.read_block(1, 6).err().unwrap(),
        FsError::Corrupt("a mapped block is missing from the store")
    );
}
