//! Several nodes, their messages carried by hand.

use lumen_fs::brick::{Brick, BrickParams};
use lumen_fs::bytes::ByteView;
use lumen_fs::error::FsError;
use lumen_fs::hash::hash_block;
use lumen_fs::pool::Pool;
use lumen_fs::repl::wire::{Effect, PeerMessage, ReplOp, SyncOffer};
use lumen_fs::repl::{ReplNode, ReplState};
use lumen_fs::sim::SimDisk;
use lumen_fs::slice::{slice_of, NodeId};

const KIB: u64 = 1024;
const BLOCK: u64 = 4 * KIB;

fn node(seed: u64, id: NodeId) -> ReplNode<SimDisk> {
    let brick = Brick::format(
        SimDisk::new(8 * KIB * KIB, seed),
        BrickParams {
            pool_uuid: [0xAA; 16],
            brick_uuid: [id; 16],
            block_size: BLOCK as u32,
            segment_size: 128 * KIB,
            wal_size: 64 * KIB,
            tier: 0,
            wal_holder: true,
        },
    )
    .unwrap();
    ReplNode::new(Pool::create(brick).unwrap(), id)
}

/// Carries messages between nodes until no one has anything to say; hands
/// back what was not a message.
fn pump(nodes: &mut Vec<ReplNode<SimDisk>>) -> Vec<(usize, Effect)> {
    let mut local = Vec::new();
    loop {
        let mut quiet = true;
        for from in 0..nodes.len() {
            for effect in nodes[from].take_effects() {
                quiet = false;
                match effect {
                    Effect::Send(to, message) => nodes[to as usize].handle(from as NodeId, message).unwrap(),
                    other => local.push((from, other)),
                }
            }
        }
        if quiet {
            return local;
        }
    }
}

fn link(nodes: &mut Vec<ReplNode<SimDisk>>, a: usize, b: usize) {
    nodes[a].connect(b as NodeId);
    nodes[b].connect(a as NodeId);
    pump(nodes);
}

fn pair(seed: u64) -> Vec<ReplNode<SimDisk>> {
    let mut nodes = vec![node(seed, 0), node(seed + 1, 1)];
    link(&mut nodes, 0, 1);
    assert_eq!(nodes[0].state(), ReplState::Synced);
    assert_eq!(nodes[1].state(), ReplState::Synced);
    nodes
}

fn trio(seed: u64) -> Vec<ReplNode<SimDisk>> {
    let mut nodes = vec![node(seed, 0), node(seed + 1, 1), node(seed + 2, 2)];
    for n in &mut nodes {
        n.set_placement(&vec![0, 1, 2]).unwrap();
    }
    link(&mut nodes, 0, 1);
    link(&mut nodes, 0, 2);
    link(&mut nodes, 1, 2);
    for n in &nodes {
        assert_eq!(n.state(), ReplState::Synced);
        assert!(n.accepts_writes());
    }
    nodes
}

#[test]
fn two_nodes_meet_and_a_flush_waits_for_the_other() {
    let mut nodes = pair(10);
    nodes[0].create_vdisk(1, 100 * BLOCK, 0).unwrap();
    nodes[0].write_block(1, 3, b"twice durable").unwrap();
    let ticket = nodes[0].flush().unwrap();
    // The peer has not answered yet.
    let first: Vec<Effect> = nodes[0].take_effects();
    assert!(!first.contains(&Effect::FlushDone(ticket)));
    for effect in first {
        if let Effect::Send(to, message) = effect {
            nodes[to as usize].handle(0, message).unwrap();
        }
    }
    assert_eq!(pump(&mut nodes), vec![(0, Effect::FlushDone(ticket))]);
    assert_eq!(nodes[1].read_block(1, 3).unwrap().unwrap(), b"twice durable");
    assert_eq!(nodes[0].stream_counters(), (3, 3, 0));
    assert_eq!(nodes[1].peer_counters(), vec![(0, 0, 0, 3)]);
}

#[test]
fn a_flush_parked_on_a_lost_peer_is_released_by_its_fence() {
    let mut nodes = pair(20);
    nodes[0].create_vdisk(1, 100 * BLOCK, 0).unwrap();
    nodes[0].write_block(1, 0, b"waiting").unwrap();
    let ticket = nodes[0].flush().unwrap();
    nodes[0].peer_lost(1);
    assert_eq!(nodes[0].state(), ReplState::Suspended);
    assert!(!nodes[0].accepts_writes());
    assert_eq!(nodes[0].take_effects(), vec![]);
    assert_eq!(nodes[0].write_block(1, 1, b"no").err().unwrap(), FsError::Suspended);
    let era = nodes[0].era_target();
    assert_eq!(era, 2);
    nodes[0].set_member_fenced(1, era).unwrap();
    assert!(nodes[0].take_effects().contains(&Effect::FlushDone(ticket)));
    // The guest that ran here keeps its pen.
    nodes[0].write_block(1, 1, b"alone").unwrap();
}

#[test]
fn a_returning_peer_pulls_what_it_missed() {
    let mut nodes = pair(30);
    nodes[0].create_vdisk(1, 200 * BLOCK, 0).unwrap();
    for index in 0..150u64 {
        nodes[0].write_block(1, index, &index.to_le_bytes()).unwrap();
    }
    pump(&mut nodes);
    nodes[0].peer_lost(1);
    nodes[1].peer_lost(0);
    let era = nodes[0].era_target();
    nodes[0].set_member_fenced(1, era).unwrap();
    for index in 100..200u64 {
        nodes[0].write_block(1, index, &(index + 1000).to_le_bytes()).unwrap();
    }
    nodes[0].snapshot_vdisk(1, 9).unwrap();
    nodes[0].take_effects();
    link(&mut nodes, 0, 1);
    assert_eq!(nodes[0].state(), ReplState::Synced);
    assert_eq!(nodes[1].state(), ReplState::Synced);
    assert_eq!(nodes[1].pool().era(), 2);
    for index in 0..200u64 {
        let want = if index < 100 { index } else { index + 1000 };
        assert_eq!(nodes[1].read_block(1, index).unwrap().unwrap(), want.to_le_bytes());
    }
    assert_eq!(nodes[1].read_snapshot_block(1, 9, 150).unwrap().unwrap(), 1150u64.to_le_bytes());
    // Lockstep goes on.
    nodes[0].write_block(1, 5, b"after the resync").unwrap();
    let ticket = nodes[0].flush().unwrap();
    assert!(pump(&mut nodes).contains(&(0, Effect::FlushDone(ticket))));
    assert_eq!(nodes[1].read_block(1, 5).unwrap().unwrap(), b"after the resync");
}

#[test]
fn writes_during_a_resync_are_replayed_after_the_adoption() {
    let mut nodes = pair(40);
    nodes[0].create_vdisk(1, 50 * BLOCK, 0).unwrap();
    nodes[0].write_block(1, 0, b"before").unwrap();
    pump(&mut nodes);
    nodes[0].peer_lost(1);
    nodes[1].peer_lost(0);
    nodes[0].set_peer_fenced(1).unwrap();
    nodes[0].write_block(1, 1, b"alone").unwrap();
    nodes[0].take_effects();
    nodes[0].connect(1);
    nodes[1].connect(0);
    // The hellos, the request and the offer go across; then a guest writes.
    for _ in 0..2 {
        for from in 0..2usize {
            for effect in nodes[from].take_effects() {
                if let Effect::Send(to, message) = effect {
                    nodes[to as usize].handle(from as NodeId, message).unwrap();
                }
            }
        }
    }
    if nodes[0].accepts_writes() {
        nodes[0].write_block(1, 2, b"meanwhile").unwrap();
        pump(&mut nodes);
        assert_eq!(nodes[1].read_block(1, 2).unwrap().unwrap(), b"meanwhile");
    } else {
        pump(&mut nodes);
    }
    assert_eq!(nodes[1].read_block(1, 0).unwrap().unwrap(), b"before");
    assert_eq!(nodes[1].read_block(1, 1).unwrap().unwrap(), b"alone");
    assert_eq!(nodes[1].state(), ReplState::Synced);
}

#[test]
fn the_pen_moves_from_node_to_node_once() {
    let mut nodes = pair(50);
    nodes[0].create_vdisk(1, 10 * BLOCK, 0).unwrap();
    pump(&mut nodes);
    assert_eq!(nodes[1].write_block(1, 0, b"x").err().unwrap(), FsError::NotWriter(1));
    assert_eq!(nodes[1].accept_handover(1).err().unwrap(), FsError::NoSuchHandover(1));
    nodes[0].begin_handover(1, 1).unwrap();
    pump(&mut nodes);
    assert_eq!(nodes[1].accept_handover(1).err().unwrap(), FsError::NoSuchHandover(1));
    nodes[0].relinquish(1, 1).unwrap();
    assert_eq!(nodes[0].write_block(1, 0, b"x").err().unwrap(), FsError::NotWriter(1));
    pump(&mut nodes);
    nodes[1].accept_handover(1).unwrap();
    nodes[1].write_block(1, 0, b"mine now").unwrap();
    pump(&mut nodes);
    assert_eq!(nodes[0].read_block(1, 0).unwrap().unwrap(), b"mine now");
    assert_eq!(nodes[0].lease(1).unwrap().holder, 1);
    assert_eq!(nodes[0].abort_handover(1).err().unwrap(), FsError::NoSuchHandover(1));
    assert_eq!(nodes[0].claim_writer(1).err().unwrap(), FsError::LeaseHeld { vdisk: 1, holder: 1 });
}

#[test]
fn a_clone_and_a_rollback_reach_the_peer() {
    let mut nodes = pair(60);
    nodes[0].create_vdisk(1, 10 * BLOCK, 0).unwrap();
    nodes[0].write_block(1, 0, b"past").unwrap();
    nodes[0].snapshot_vdisk(1, 5).unwrap();
    nodes[0].write_block(1, 0, b"present").unwrap();
    nodes[0].clone_vdisk(2, 1, 5).unwrap();
    nodes[0].rollback_vdisk(1, 5).unwrap();
    nodes[0].trim_block(2, 0).unwrap();
    nodes[0].delete_snapshot(1, 5).unwrap();
    nodes[0].create_vdisk(3, 10 * BLOCK, 0).unwrap();
    nodes[0].delete_vdisk(3).unwrap();
    pump(&mut nodes);
    for n in &mut nodes {
        assert_eq!(n.read_block(1, 0).unwrap().unwrap(), b"past");
        assert_eq!(n.read_block(2, 0).unwrap(), None);
        assert_eq!(n.pool().vdisks().len(), 2);
        assert_eq!(n.pool().snapshots(), vec![]);
    }
}

#[test]
fn a_non_home_fetches_a_block_and_keeps_nothing() {
    let mut nodes = trio(70);
    nodes[0].create_vdisk(1, 100 * BLOCK, 0).unwrap();
    pump(&mut nodes);
    // A payload whose slice has node 0 and another member as homes.
    let mut index = 0u64;
    let (payload, stranger) = loop {
        let payload = index.to_le_bytes();
        let homes = nodes[0].pool().placement().unwrap().1.homes_of(&hash_block(&payload));
        if homes.contains(&0) {
            break (payload, (0..3u8).find(|n| !homes.contains(n)).unwrap() as usize);
        }
        index += 1;
    };
    nodes[0].write_block(1, 7, &payload).unwrap();
    pump(&mut nodes);
    let hash = hash_block(&payload);
    assert!(nodes[0].pool().has_block(0, &hash));
    assert!(!nodes[stranger].pool().has_block(0, &hash));
    assert_eq!(nodes[stranger].read_block(1, 7).err().unwrap(), FsError::BlockElsewhere { tier: 0, hash });
    let ticket = nodes[stranger].fetch_block(0, hash).unwrap();
    assert!(pump(&mut nodes).contains(&(stranger, Effect::ReadDone(ticket))));
    assert_eq!(nodes[stranger].read_block(1, 7).unwrap().unwrap(), payload);
    assert!(!nodes[stranger].pool().has_block(0, &hash));
    assert_eq!(nodes[stranger].read_block(1, 7).err().unwrap(), FsError::BlockElsewhere { tier: 0, hash });
    // A fetch whose session dies fails rather than hangs.
    let ticket = nodes[stranger].fetch_block(0, hash).unwrap();
    for peer in 0..3u8 {
        if peer as usize != stranger {
            nodes[stranger].peer_lost(peer);
        }
    }
    assert_eq!(nodes[stranger].take_effects(), vec![Effect::ReadFailed(ticket)]);
    assert_eq!(
        nodes[stranger].fetch_block(0, hash).err().unwrap(),
        FsError::SliceUnreachable(slice_of(&hash) as u8)
    );
}

#[test]
fn a_fetch_on_an_unplaced_member_makes_no_sense() {
    let mut nodes = pair(80);
    assert!(matches!(nodes[0].fetch_block(0, hash_block(b"x")).err().unwrap(), FsError::Corrupt(_)));
}

#[test]
fn a_reassignment_moves_blocks_before_it_commits() {
    let mut nodes = vec![node(90, 0), node(91, 1), node(92, 2)];
    for n in &mut nodes {
        n.set_placement(&vec![0, 1]).unwrap();
    }
    link(&mut nodes, 0, 1);
    link(&mut nodes, 0, 2);
    link(&mut nodes, 1, 2);
    nodes[0].create_vdisk(1, 100 * BLOCK, 0).unwrap();
    for index in 0..60u64 {
        nodes[0].write_block(1, index, &index.to_le_bytes()).unwrap();
    }
    pump(&mut nodes);
    assert!(matches!(nodes[2].step_reassign().err().unwrap(), FsError::Placement(_)));
    for n in &mut nodes {
        assert_eq!(n.reassign_pending(), None);
        n.prepare_reassign(2, &vec![0, 1, 2]).unwrap();
        assert_eq!(n.reassign_pending(), Some(2));
    }
    let owed = nodes[2].step_reassign().unwrap();
    assert!(owed > 0, "the newcomer owes itself something");
    assert!(matches!(nodes[2].commit_reassign().err().unwrap(), FsError::Placement(_)));
    let mut rounds = 0;
    while nodes[2].step_reassign().unwrap() > 0 {
        pump(&mut nodes);
        rounds += 1;
        assert!(rounds < 20);
    }
    for n in &mut nodes {
        assert_eq!(n.step_reassign().unwrap(), 0);
        n.commit_reassign().unwrap();
        assert_eq!(n.reassign_pending(), None);
        assert_eq!(n.pool().placement().unwrap().1.version(), 2);
    }
    let here = (0..60u64).filter(|i| nodes[2].pool().has_block(0, &hash_block(&i.to_le_bytes()))).count();
    assert_eq!(here, owed);
}

#[test]
fn a_member_behind_on_the_map_is_sent_it_whole() {
    let mut nodes = vec![node(100, 0), node(101, 1)];
    for n in &mut nodes {
        n.set_placement(&vec![0, 1]).unwrap();
    }
    nodes[0].prepare_reassign(4, &vec![0, 1]).unwrap();
    nodes[0].commit_reassign().unwrap();
    link(&mut nodes, 0, 1);
    assert_eq!(nodes[1].pool().placement().unwrap().1.version(), 4);
    assert_eq!(nodes[0].state(), ReplState::Synced);
    assert_eq!(nodes[1].state(), ReplState::Synced);
}

#[test]
fn bytes_written_through_a_node_reach_its_peer() {
    let mut nodes = pair(110);
    nodes[0].create_vdisk(1, 10 * BLOCK, 0).unwrap();
    let data: Vec<u8> = (0..6000u32).map(|i| (i % 251) as u8).collect();
    nodes[0].write_bytes(1, 1000, &data).unwrap();
    nodes[0].trim_bytes(1, 8 * BLOCK, 2 * BLOCK).unwrap();
    pump(&mut nodes);
    assert_eq!(nodes[1].read_bytes(1, 1000, 6000).unwrap(), data);
    assert_eq!(nodes[1].read_bytes(1, 0, 1000).unwrap(), vec![0u8; 1000]);
}

#[test]
fn a_tier_a_peer_lacks_is_refused_before_anything_happens() {
    let mut nodes = pair(120);
    assert_eq!(nodes[0].create_vdisk(1, BLOCK, 3).err().unwrap(), FsError::TierNotOnPeer(3));
    assert_eq!(nodes[0].pool().vdisks(), vec![]);
}

#[test]
fn strangers_and_broken_streams_are_refused() {
    let mut a = node(130, 0);
    assert!(a.handle(7, PeerMessage::SyncStart).is_err());
    assert!(a.payloads_prehashed(7, vec![]).is_err());
    let mut nodes = pair(131);
    let skip = PeerMessage::Apply { first_rseq: 5, ops: vec![ReplOp::DeleteVdisk { id: 1 }] };
    assert!(nodes[0].handle(1, skip).is_err());
    assert!(nodes[0].handle(1, PeerMessage::Flush { up_to: 9 }).is_err());
    assert!(nodes[0].handle(1, PeerMessage::SyncStart).is_err());
    assert!(nodes[0].handle(1, PeerMessage::SyncReady).is_err());
    assert!(nodes[0].handle(1, PeerMessage::SyncData(vec![])).is_err());
    assert!(nodes[0].handle(1, PeerMessage::SyncAdopt { final_rseq: 0 }).is_err());
    assert!(nodes[0].handle(1, PeerMessage::SyncNeed(vec![(0, hash_block(b"nowhere"))])).is_err());
    let offer = SyncOffer { era: 1, vdisks: vec![], snapshots: vec![], leases: vec![] };
    assert!(nodes[0].handle(1, PeerMessage::SyncManifest(offer)).is_err());
}

#[test]
fn an_offer_on_a_tier_this_node_lacks_is_refused_by_name() {
    let mut a = node(140, 1);
    a.handle(0, PeerMessage::Hello { era: 5, node: 0, tiers: vec![0, 4], map_version: 0 }).unwrap();
    assert_eq!(a.take_effects(), vec![Effect::Send(0, PeerMessage::SyncStart)]);
    assert_eq!(a.state(), ReplState::Resyncing { source: false });
    let offer = SyncOffer { era: 5, vdisks: vec![(1, BLOCK, 4, None)], snapshots: vec![], leases: vec![] };
    assert_eq!(a.handle(0, PeerMessage::SyncManifest(offer)).err().unwrap(), FsError::NoSuchTier(4));
    // An empty offer is complete at once.
    let offer = SyncOffer { era: 5, vdisks: vec![], snapshots: vec![], leases: vec![] };
    a.handle(0, PeerMessage::SyncManifest(offer)).unwrap();
    assert_eq!(a.take_effects(), vec![Effect::Send(0, PeerMessage::SyncReady)]);
    let ticket = a.flush().unwrap();
    a.handle(0, PeerMessage::SyncAdopt { final_rseq: 0 }).unwrap();
    assert_eq!(
        a.take_effects(),
        vec![Effect::FlushFailed(ticket), Effect::Send(0, PeerMessage::SyncDone { era: 5 })]
    );
    assert_eq!(a.pool().era(), 5);
    assert_eq!(a.era_target(), 6);
}

#[test]
fn a_stale_stream_never_meets_a_new_need() {
    let mut nodes = pair(150);
    nodes[0].create_vdisk(1, 10 * BLOCK, 0).unwrap();
    nodes[0].write_block(1, 0, b"x").unwrap();
    let ticket = nodes[0].flush().unwrap();
    nodes[0].take_effects();
    // The link drops and comes back: a confirmation counted on the new
    // stream says nothing of the old one.
    nodes[0].peer_lost(1);
    nodes[0].handle(1, PeerMessage::Durable { up_to: 1000 }).unwrap();
    assert!(!nodes[0].take_effects().contains(&Effect::FlushDone(ticket)));
}

#[test]
fn a_checkpoint_and_a_collection_leave_a_node_readable() {
    let mut nodes = pair(160);
    nodes[0].create_vdisk(1, 40 * BLOCK, 0).unwrap();
    for round in 0..5u8 {
        for index in 0..20u64 {
            let mut data = vec![round; 2000];
            data[0] = index as u8;
            nodes[0].write_block(1, index, &data).unwrap();
        }
        pump(&mut nodes);
    }
    for n in &mut nodes {
        n.checkpoint().unwrap();
        let stats = n.collect_garbage().unwrap();
        assert!(stats.blocks_dropped > 0);
        assert_eq!(n.read_block(1, 19).unwrap().unwrap()[1], 4);
    }
    let pool = nodes.remove(0).into_pool();
    assert_eq!(pool.read_block(1, 0).unwrap().unwrap()[1], 4);
}

#[test]
fn a_pull_asks_each_source_for_what_both_are_homes_of() {
    let mut nodes = trio(140);
    nodes[0].create_vdisk(1, 400 * BLOCK, 0).unwrap();
    pump(&mut nodes);
    for peer in [0, 1] {
        nodes[2].peer_lost(peer);
        nodes[peer as usize].peer_lost(2);
    }
    let era = nodes[0].era_target().max(nodes[1].era_target());
    nodes[0].set_member_fenced(2, era).unwrap();
    nodes[1].set_member_fenced(2, era).unwrap();
    pump(&mut nodes);
    for index in 0..120u64 {
        nodes[0].write_block(1, index, &index.to_le_bytes()).unwrap();
    }
    pump(&mut nodes);
    for peer in [0u8, 1] {
        nodes[peer as usize].connect(2);
        nodes[2].connect(peer);
    }
    let map = nodes[0].pool().placement().unwrap().1.copied();
    let data: Vec<_> = (0..120u64).map(|index| hash_block(&index.to_le_bytes())).collect();
    let mut asked = 0;
    loop {
        let mut quiet = true;
        for from in 0..3usize {
            for effect in nodes[from].take_effects() {
                quiet = false;
                if let Effect::Send(to, message) = effect {
                    if let PeerMessage::SyncNeed(wants) = &message {
                        for (_, hash) in wants {
                            if data.contains(hash) {
                                let homes = map.homes_of(hash);
                                assert!(homes.contains(&(from as NodeId)) && homes.contains(&to));
                                asked += 1;
                            }
                        }
                    }
                    nodes[to as usize].handle(from as NodeId, message).unwrap();
                }
            }
        }
        if quiet {
            break;
        }
    }
    let owed = data.iter().filter(|hash| map.homes_of(hash).contains(&2)).count();
    assert_eq!(asked, owed);
    assert_eq!(nodes[2].state(), ReplState::Synced);
    for hash in &data {
        assert_eq!(nodes[2].pool().has_block(0, hash), map.homes_of(hash).contains(&2));
    }
}
