use lumen_fs::brick::{Brick, BrickParams};
use lumen_fs::error::FsError;
use lumen_fs::pool::{Lease, Pool};
use lumen_fs::repl::coalesce::coalesce;
use lumen_fs::repl::wire::{Effect, PeerMessage, ReplOp};
use lumen_fs::repl::{ReplNode, ReplState};
use lumen_fs::sim::SimDisk;
use lumen_fs::slice::NodeId;

const KIB: u64 = 1024;

fn node(seed: u64, id: NodeId) -> ReplNode<SimDisk> {
    let brick = Brick::format(
        SimDisk::new(4 * KIB * KIB, seed),
        BrickParams {
            pool_uuid: [0xAA; 16],
            brick_uuid: [id; 16],
            block_size: 4 * KIB as u32,
            segment_size: 128 * KIB,
            wal_size: 32 * KIB,
            tier: 0,
            wal_holder: true,
        },
    )
    .unwrap();
    ReplNode::new(Pool::create(brick).unwrap(), id)
}

#[test]
fn mod_a_suspended_node_refuses_writes_and_parks_flushes() {
    let mut a = node(1, 0);
    assert_eq!(a.state(), ReplState::Suspended);
    assert_eq!(
        a.create_vdisk(1, 100 * 4096, 0).err().unwrap(),
        FsError::Suspended
    );
    let ticket = a.flush().unwrap();
    // Parked: no FlushDone among the effects.
    assert!(a
        .take_effects()
        .iter()
        .all(|e| !matches!(e, Effect::FlushDone(_))));
    // The verdict releases it.
    let era = a.era_target();
    a.set_member_fenced(1, era).unwrap();
    assert_eq!(a.state(), ReplState::Degraded);
    assert!(a.take_effects().contains(&Effect::FlushDone(ticket)));
}

#[test]
fn mod_a_degraded_node_acknowledges_alone_and_bumped_its_era() {
    let mut a = node(2, 0);
    assert_eq!(a.pool().era(), 1);
    let era = a.era_target();
    a.set_member_fenced(1, era).unwrap();
    assert_eq!(a.pool().era(), 2);
    a.create_vdisk(1, 100 * 4096, 0).unwrap();
    a.write_block(1, 0, b"alone but honest").unwrap();
    let ticket = a.flush().unwrap();
    assert!(a.take_effects().contains(&Effect::FlushDone(ticket)));
}

#[test]
fn mod_a_verdict_for_a_present_peer_is_refused() {
    let mut a = node(3, 0);
    let era = a.era_target();
    a.set_member_fenced(1, era).unwrap();
    // Already fenced: a second verdict makes no sense.
    let era = a.era_target();
    assert!(a.set_member_fenced(1, era).is_err());
}

#[test]
fn a_verdict_below_the_witnessed_floor_is_refused() {
    let mut a = node(6, 0);
    // The node's own era is 1, so the target floor is 2; a verdict
    // naming the era already lived in cannot fence anyone honestly.
    assert!(a.set_member_fenced(1, 1).is_err());
    // And the honest number still works.
    a.set_member_fenced(1, a.era_target()).unwrap();
    assert_eq!(a.pool().era(), 2);
}

#[test]
fn mod_only_the_writer_writes() {
    let mut a = node(4, 0);
    let era = a.era_target();
    a.set_member_fenced(1, era).unwrap();
    a.create_vdisk(1, 100 * 4096, 0).unwrap();
    a.take_effects();
    // Another node's view: same vdisk, no writer role.
    let mut b = node(5, 1);
    let era = b.era_target();
    b.set_member_fenced(0, era).unwrap();
    create_as_applier(&mut b, 0, 1);
    assert_eq!(
        b.write_block(1, 0, b"not mine").err().unwrap(),
        FsError::NotWriter(1)
    );
}

#[test]
fn an_era_stale_lease_of_a_live_member_is_not_claimable() {
    let mut a = node(7, 0);
    a.set_member_fenced(1, a.era_target()).unwrap();
    a.create_vdisk(1, 100 * 4096, 0).unwrap();
    // Hand the record to node 2 (live, never fenced), then age it: a
    // second verdict against a different member bumps the era past
    // the lease.
    let lease = Lease {
        holder: 2,
        handing_to: None,
        era: a.pool().era(),
    };
    let op = ReplOp::SetLease { vdisk: 1, lease };
    a.handle(1, PeerMessage::Apply { first_rseq: 1, ops: vec![op] }).unwrap();
    a.set_member_fenced(3, a.era_target()).unwrap();
    // The record is stale but its holder is alive somewhere: claiming
    // would make a second writer.
    assert_eq!(
        a.claim_writer(1).err().unwrap(),
        FsError::LeaseHeld {
            vdisk: 1,
            holder: 2
        }
    );
}

/// Creates a vdisk without claiming the writer role, as an applier would.
fn create_as_applier(node: &mut ReplNode<SimDisk>, from: NodeId, id: u64) {
    let op = ReplOp::CreateVdisk { id, size_bytes: 100 * 4096, tier: 0 };
    node.handle(from, PeerMessage::Apply { first_rseq: 1, ops: vec![op] }).unwrap();
}

fn payload(byte: u8) -> (u8, Vec<u8>) {
    (0, vec![byte; 4])
}

fn op(index: u64) -> ReplOp {
    ReplOp::Trim { vdisk: 1, index }
}

/// The shape a large guest write actually emits — payload, apply,
/// payload, apply — folds to one of each, order preserved: every
/// payload still precedes the op that references it.
#[test]
fn a_writes_worth_of_chatter_becomes_two_messages() {
    let out = coalesce(vec![
        Effect::Send(1, PeerMessage::Payloads(vec![payload(1)])),
        Effect::Send(
            1,
            PeerMessage::Apply {
                first_rseq: 10,
                ops: vec![op(0)],
            },
        ),
        Effect::Send(1, PeerMessage::Payloads(vec![payload(2)])),
        Effect::Send(
            1,
            PeerMessage::Apply {
                first_rseq: 11,
                ops: vec![op(1)],
            },
        ),
    ]);
    assert_eq!(
        out,
        vec![
            Effect::Send(1, PeerMessage::Payloads(vec![payload(1), payload(2)])),
            Effect::Send(
                1,
                PeerMessage::Apply {
                    first_rseq: 10,
                    ops: vec![op(0), op(1)],
                },
            ),
        ]
    );
}

/// The stream numbering is the contract: a gap means something
/// happened in between, and the messages stay apart.
#[test]
fn a_sequence_gap_refuses_to_merge() {
    let effects = vec![
        Effect::Send(
            1,
            PeerMessage::Apply {
                first_rseq: 10,
                ops: vec![op(0)],
            },
        ),
        Effect::Send(
            1,
            PeerMessage::Apply {
                first_rseq: 12,
                ops: vec![op(1)],
            },
        ),
    ];
    assert_eq!(coalesce(effects.clone()), effects);
}

/// Any other message is a barrier — a flush's position against the
/// payloads around it survives exactly as emitted.
#[test]
fn a_barrier_stops_the_merge_and_peers_merge_independently() {
    let out = coalesce(vec![
        Effect::Send(1, PeerMessage::Payloads(vec![payload(1)])),
        Effect::Send(2, PeerMessage::Payloads(vec![payload(9)])),
        Effect::Send(1, PeerMessage::Flush { up_to: 5 }),
        Effect::Send(1, PeerMessage::Payloads(vec![payload(2)])),
        Effect::Send(2, PeerMessage::Payloads(vec![payload(8)])),
    ]);
    assert_eq!(
        out,
        vec![
            Effect::Send(1, PeerMessage::Payloads(vec![payload(1)])),
            // Peer 2 merges across peer 1's barrier: barriers are
            // per-stream facts.
            Effect::Send(2, PeerMessage::Payloads(vec![payload(9), payload(8)])),
            Effect::Send(1, PeerMessage::Flush { up_to: 5 }),
            Effect::Send(1, PeerMessage::Payloads(vec![payload(2)])),
        ]
    );
}

/// The pattern a non-home writer sends a home: an op for one block,
/// then another block's payload, then its op. The second op must NOT
/// merge backward past the payload it references — the three-node
/// sim's refusal ("a replicated write names a block the store does
/// not hold") is what this pins.
#[test]
fn an_op_never_merges_backward_past_its_own_payload() {
    let effects = vec![
        Effect::Send(
            1,
            PeerMessage::Apply {
                first_rseq: 10,
                ops: vec![op(0)],
            },
        ),
        Effect::Send(1, PeerMessage::Payloads(vec![payload(2)])),
        Effect::Send(
            1,
            PeerMessage::Apply {
                first_rseq: 11,
                ops: vec![op(1)],
            },
        ),
    ];
    assert_eq!(coalesce(effects.clone()), effects);
}

/// Non-send effects answer local waiters, not the wire — they pass
/// through in place and merge nothing.
#[test]
fn local_effects_pass_through_untouched() {
    let effects = vec![
        Effect::FlushDone(7),
        Effect::Send(1, PeerMessage::Payloads(vec![payload(1)])),
        Effect::ReadDone(9),
        Effect::Send(1, PeerMessage::Payloads(vec![payload(2)])),
    ];
    let out = coalesce(effects);
    assert_eq!(
        out,
        vec![
            Effect::FlushDone(7),
            Effect::Send(1, PeerMessage::Payloads(vec![payload(1), payload(2)])),
            Effect::ReadDone(9),
        ]
    );
}
