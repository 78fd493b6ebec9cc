use lumen_fs::brick::{Brick, BrickParams};
use lumen_fs::error::FsError;
use lumen_fs::pool::Pool;
use lumen_fs::repl::wire::{Effect, PeerMessage, ReplOp};
use lumen_fs::repl::{ReplNode, ReplState};
use lumen_fs::sim::SimDisk;
use lumen_fs::slice::NodeId;

const KIB: u64 = 1024;

fn node(seed: u64, id: NodeId) -> ReplNode<SimDisk> {
    let brick = Brick::format(
        SimDisk::new(4 * KIB * KIB, seed),
        BrickParams {
            pool_uuid: [0xAA; 16],
            brick_uuid: [id; 16],
            block_size: 4 * KIB as u32,
            segment_size: 128 * KIB,
            wal_size: 32 * KIB,
            tier: 0,
            wal_holder: true,
        },
    )
    .unwrap();
    ReplNode::new(Pool::create(brick).unwrap(), id)
}

#[test]
fn repl_a_suspended_node_refuses_writes_and_parks_flushes() {
    let mut a = node(1, 0);
    assert_eq!(a.state(), ReplState::Suspended);
    assert_eq!(
        a.create_vdisk(1, 100 * 4096, 0).err().unwrap(),
        FsError::Suspended
    );
    let ticket = a.flush().unwrap();
    // Parked: no FlushDone among the effects.
    assert!(a
        .take_effects()
        .iter()
        .all(|e| !matches!(e, Effect::FlushDone(_))));
    // The verdict releases it.
    a.set_peer_fenced(1).unwrap();
    assert_eq!(a.state(), ReplState::Degraded);
    assert!(a.take_effects().contains(&Effect::FlushDone(ticket)));
}

#[test]
fn repl_a_degraded_node_acknowledges_alone_and_bumped_its_era() {
    let mut a = node(2, 0);
    assert_eq!(a.pool().era(), 1);
    a.set_peer_fenced(1).unwrap();
    assert_eq!(a.pool().era(), 2);
    a.create_vdisk(1, 100 * 4096, 0).unwrap();
    a.write_block(1, 0, b"alone but honest").unwrap();
    let ticket = a.flush().unwrap();
    assert!(a.take_effects().contains(&Effect::FlushDone(ticket)));
}

#[test]
fn repl_a_verdict_for_a_present_peer_is_refused() {
    let mut a = node(3, 0);
    a.set_peer_fenced(1).unwrap();
    // Already degraded: a second verdict makes no sense.
    assert!(a.set_peer_fenced(1).is_err());
}

#[test]
fn repl_only_the_writer_writes() {
    let mut a = node(4, 0);
    a.set_peer_fenced(1).unwrap();
    a.create_vdisk(1, 100 * 4096, 0).unwrap();
    a.take_effects();
    // Another node's view: same vdisk, no writer role.
    let mut b = node(5, 1);
    b.set_peer_fenced(0).unwrap();
    create_as_applier(&mut b, 0, 1);
    assert_eq!(
        b.write_block(1, 0, b"not mine").err().unwrap(),
        FsError::NotWriter(1)
    );
}

/// Creates a vdisk without claiming the writer role, as an applier would.
fn create_as_applier(node: &mut ReplNode<SimDisk>, from: NodeId, id: u64) {
    let op = ReplOp::CreateVdisk { id, size_bytes: 100 * 4096, tier: 0 };
    node.handle(from, PeerMessage::Apply { first_rseq: 1, ops: vec![op] }).unwrap();
}
