//! What nodes say to each other, and what a node asks of the world.
//!
//! In-memory shapes: whoever owns the sockets owns the encoding.

use crate::hash::BlockHash;
use crate::pool::sync::{SnapshotOffer, VdiskOffer};
use crate::pool::{tree_depth, Lease};
use crate::slice::{Homes, NodeId};
use vstd::prelude::*;

verus! {

/// Everything a resync source offers: the settled state a target walks
/// toward and then adopts whole.
#[derive(Debug, Clone, PartialEq, Eq)]
pub struct SyncOffer {
    pub era: u64,
    pub vdisks: Vec<VdiskOffer>,
    pub snapshots: Vec<SnapshotOffer>,
    pub leases: Vec<(u64, Lease)>,
}

/// How many blocks a resync target asks for per round trip.
pub const SYNC_BATCH: usize = 64;

/// One replicated operation: the wire form of the pool's mutating calls.
/// Payloads travel separately; an op references data only by content
/// address.
#[derive(Debug, Clone, Copy, PartialEq, Eq)]
pub enum ReplOp {
    CreateVdisk { id: u64, size_bytes: u64, tier: u8 },
    Write { vdisk: u64, index: u64, hash: BlockHash },
    Trim { vdisk: u64, index: u64 },
    DeleteVdisk { id: u64 },
    Snapshot { vdisk: u64, snapshot: u64 },
    DeleteSnapshot { vdisk: u64, snapshot: u64 },
    Rollback { vdisk: u64, snapshot: u64 },
    Clone { new_id: u64, vdisk: u64, snapshot: u64 },
    /// The whole lease, not a request for one: the peer applies what the
    /// holder decided rather than deciding again.
    SetLease { vdisk: u64, lease: Lease },
}

/// The protocol.
#[derive(Debug, Clone, PartialEq, Eq)]
pub enum PeerMessage {
    /// Who I am, which era my state belongs to, which tiers my brick set
    /// carries, and the version of my committed slice map (0 when unplaced).
    /// Opens every connection; both sides derive the same roles from it.
    Hello { era: u64, node: NodeId, tiers: Vec<u8>, map_version: u64 },
    /// Data blocks ahead of the ops that reference them, each on the tier
    /// its op will reference it at.
    Payloads(Vec<(u8, Vec<u8>)>),
    /// Ops in stream order. `first_rseq` numbers the first; the rest follow
    /// one by one. Numbering is per ordered pair of nodes.
    Apply { first_rseq: u64, ops: Vec<ReplOp> },
    /// Make everything up to `up_to` durable and say so.
    Flush { up_to: u64 },
    /// Everything up to `up_to` is durable here.
    Durable { up_to: u64 },
    /// The target asks the source to checkpoint and offer its state.
    SyncStart,
    /// The source's settled state, roots and all.
    SyncManifest(SyncOffer),
    /// Blocks the target lacks, each named with the tier it lives on.
    SyncNeed(Vec<(u8, BlockHash)>),
    /// The blocks, tier and payload; each identifies itself by its hash.
    SyncData(Vec<(u8, Vec<u8>)>),
    /// The committed map, whole, for a member whose hello showed it behind.
    MapIs { version: u64, pairs: Vec<Homes> },
    /// Blocks wanted right now, outside any resync.
    Read(Vec<(u8, BlockHash)>),
    /// The fetched blocks. A home stores what arrives; a non-home serves the
    /// waiting read and keeps nothing.
    ReadData(Vec<(u8, Vec<u8>)>),
    /// The pull is complete; the target asks leave to adopt.
    SyncReady,
    /// The source has stopped serving; exactly `final_rseq` ops precede this
    /// message on the stream. The target may adopt and replay.
    SyncAdopt { final_rseq: u64 },
    /// The target has adopted; both sides return to lockstep.
    SyncDone { era: u64 },
}

/// What the node wants the outside world to do.
#[derive(Debug, Clone, PartialEq, Eq)]
pub enum Effect {
    /// Put this message on the wire to this peer, and only this peer.
    Send(NodeId, PeerMessage),
    /// The guest flush with this ticket is fully acknowledged.
    FlushDone(u64),
    /// The guest flush with this ticket can never complete honestly: its
    /// writes were discarded by an adoption.
    FlushFailed(u64),
    /// The fetch with this ticket landed: the block is readable now.
    ReadDone(u64),
    /// The fetch with this ticket cannot complete: the session it rode died.
    ReadFailed(u64),
}

/// An offer as the contracts see it.
pub struct OfferView {
    pub era: u64,
    pub vdisks: Seq<VdiskOffer>,
    pub snapshots: Seq<SnapshotOffer>,
    pub leases: Seq<(u64, Lease)>,
}

impl SyncOffer {
    pub open spec fn view(&self) -> OfferView {
        OfferView { era: self.era, vdisks: self.vdisks@, snapshots: self.snapshots@, leases: self.leases@ }
    }
}

/// A message as the contracts see it.
pub enum MessageView {
    Hello { era: u64, node: NodeId, tiers: Seq<u8>, map_version: u64 },
    Payloads(Seq<(u8, Seq<u8>)>),
    Apply { first_rseq: u64, ops: Seq<ReplOp> },
    Flush { up_to: u64 },
    Durable { up_to: u64 },
    SyncStart,
    SyncManifest(OfferView),
    SyncNeed(Seq<(u8, BlockHash)>),
    SyncData(Seq<(u8, Seq<u8>)>),
    MapIs { version: u64, pairs: Seq<Homes> },
    Read(Seq<(u8, BlockHash)>),
    ReadData(Seq<(u8, Seq<u8>)>),
    SyncReady,
    SyncAdopt { final_rseq: u64 },
    SyncDone { era: u64 },
}

/// Blocks with their tiers, payloads as sequences.
pub open spec fn blocks_view(s: Seq<(u8, Vec<u8>)>) -> Seq<(u8, Seq<u8>)> {
    Seq::new(s.len(), |i: int| (s[i].0, s[i].1@))
}

impl PeerMessage {
    pub open spec fn view(&self) -> MessageView {
        match *self {
            PeerMessage::Hello { era, node, tiers, map_version } => MessageView::Hello { era, node, tiers: tiers@, map_version },
            PeerMessage::Payloads(blocks) => MessageView::Payloads(blocks_view(blocks@)),
            PeerMessage::Apply { first_rseq, ops } => MessageView::Apply { first_rseq, ops: ops@ },
            PeerMessage::Flush { up_to } => MessageView::Flush { up_to },
            PeerMessage::Durable { up_to } => MessageView::Durable { up_to },
            PeerMessage::SyncStart => MessageView::SyncStart,
            PeerMessage::SyncManifest(offer) => MessageView::SyncManifest(offer@),
            PeerMessage::SyncNeed(wants) => MessageView::SyncNeed(wants@),
            PeerMessage::SyncData(blocks) => MessageView::SyncData(blocks_view(blocks@)),
            PeerMessage::MapIs { version, pairs } => MessageView::MapIs { version, pairs: pairs@ },
            PeerMessage::Read(wants) => MessageView::Read(wants@),
            PeerMessage::ReadData(blocks) => MessageView::ReadData(blocks_view(blocks@)),
            PeerMessage::SyncReady => MessageView::SyncReady,
            PeerMessage::SyncAdopt { final_rseq } => MessageView::SyncAdopt { final_rseq },
            PeerMessage::SyncDone { era } => MessageView::SyncDone { era },
        }
    }
}

/// An effect as the contracts see it.
pub enum EffectView {
    Send(NodeId, MessageView),
    FlushDone(u64),
    FlushFailed(u64),
    ReadDone(u64),
    ReadFailed(u64),
}

impl Effect {
    pub open spec fn view(&self) -> EffectView {
        match *self {
            Effect::Send(peer, message) => EffectView::Send(peer, message@),
            Effect::FlushDone(ticket) => EffectView::FlushDone(ticket),
            Effect::FlushFailed(ticket) => EffectView::FlushFailed(ticket),
            Effect::ReadDone(ticket) => EffectView::ReadDone(ticket),
            Effect::ReadFailed(ticket) => EffectView::ReadFailed(ticket),
        }
    }
}

/// Effects as the contracts see them.
pub open spec fn effects_view(s: Seq<Effect>) -> Seq<EffectView> {
    Seq::new(s.len(), |i: int| s[i]@)
}

/// The tier an offer gives a vdisk: that of the first entry for it. A vdisk
/// the offer does not name counts as tier 0 here, and the adoption refuses
/// it.
pub open spec fn offered_tier(vdisks: Seq<VdiskOffer>, vdisk: u64) -> u8
    decreases vdisks.len(),
{
    if vdisks.len() == 0 {
        0
    } else if vdisks[0].0 == vdisk {
        vdisks[0].2
    } else {
        offered_tier(vdisks.drop_first(), vdisk)
    }
}

/// The vdisk roots of an offer, each with its depth and the tier its data
/// lives on.
pub open spec fn vdisk_pins(vdisks: Seq<VdiskOffer>, bs: u32) -> Seq<(BlockHash, u32, u8)>
    decreases vdisks.len(),
{
    if vdisks.len() == 0 {
        Seq::empty()
    } else {
        let rest = vdisk_pins(vdisks.drop_last(), bs);
        let last = vdisks.last();
        match last.3 {
            Some(root) => rest.push((root, tree_depth(bs, last.1) as u32, last.2)),
            None => rest,
        }
    }
}

/// The snapshot roots of an offer, in the same form.
pub open spec fn snapshot_pins(vdisks: Seq<VdiskOffer>, snapshots: Seq<SnapshotOffer>, bs: u32) -> Seq<(BlockHash, u32, u8)>
    decreases snapshots.len(),
{
    if snapshots.len() == 0 {
        Seq::empty()
    } else {
        let rest = snapshot_pins(vdisks, snapshots.drop_last(), bs);
        let last = snapshots.last();
        match last.3 {
            Some(root) => rest.push((root, tree_depth(bs, last.2) as u32, offered_tier(vdisks, last.0))),
            None => rest,
        }
    }
}

/// The roots an offer names. Both ends pin them: the source so its own
/// progress cannot collect the offer, the target so its own collection
/// cannot eat what it has fetched so far.
pub open spec fn roots_of(vdisks: Seq<VdiskOffer>, snapshots: Seq<SnapshotOffer>, bs: u32) -> Seq<(BlockHash, u32, u8)> {
    vdisk_pins(vdisks, bs) + snapshot_pins(vdisks, snapshots, bs)
}

/// The tier of a vdisk named in an offer.
pub fn offer_vdisk_tier(vdisks: &Vec<VdiskOffer>, vdisk: u64) -> (tier: u8)
    ensures
        tier == offered_tier(vdisks@, vdisk),
{
    let mut i: usize = 0;
    assert(vdisks@.skip(0) =~= vdisks@);
    while i < vdisks.len()
        invariant
            i <= vdisks@.len(),
            offered_tier(vdisks@, vdisk) == offered_tier(vdisks@.skip(i as int), vdisk),
        decreases vdisks@.len() - i,
    {
        assert(vdisks@.skip(i as int)[0] == vdisks@[i as int]);
        if vdisks[i].0 == vdisk {
            return vdisks[i].2;
        }
        assert(vdisks@.skip(i as int).drop_first() =~= vdisks@.skip(i as int + 1));
        i += 1;
    }
    0
}

/// How deep the tree of a vdisk of `size_bytes` is.
fn depth_of_size(block_size: u32, size_bytes: u64) -> (depth: u32)
    requires
        crate::map::arity(block_size) >= 2,
    ensures
        depth == tree_depth(block_size, size_bytes),
{
    let bs: u64 = block_size as u64;
    proof {
        crate::pool::lemma_capacity(block_size, size_bytes);
    }
    let whole: u64 = size_bytes / bs;
    let blocks: u64 = if size_bytes % bs != 0 {
        whole + 1
    } else {
        whole
    };
    let depth: u32 = crate::map::depth_for(blocks, crate::map::entries_per_node(block_size));
    proof {
        assert(crate::map::is_depth(blocks, crate::map::arity(block_size), depth as nat));
        crate::map::lemma_depth_sized(blocks, block_size, depth as nat);
    }
    depth
}

/// An offer's roots as pins: address, depth, data tier.
pub fn offer_pins(vdisks: &Vec<VdiskOffer>, snapshots: &Vec<SnapshotOffer>, block_size: u32) -> (pins: Vec<(BlockHash, u32, u8)>)
    requires
        crate::map::arity(block_size) >= 2,
    ensures
        pins@ == roots_of(vdisks@, snapshots@, block_size),
{
    let mut pins: Vec<(BlockHash, u32, u8)> = Vec::new();
    let mut i: usize = 0;
    assert(vdisks@.take(0) =~= Seq::<VdiskOffer>::empty());
    while i < vdisks.len()
        invariant
            crate::map::arity(block_size) >= 2,
            i <= vdisks@.len(),
            pins@ == vdisk_pins(vdisks@.take(i as int), block_size),
        decreases vdisks@.len() - i,
    {
        let entry = vdisks[i];
        assert(vdisks@.take(i + 1).drop_last() =~= vdisks@.take(i as int));
        if let Some(root) = entry.3 {
            let depth: u32 = depth_of_size(block_size, entry.1);
            pins.push((root, depth, entry.2));
        }
        i += 1;
    }
    assert(vdisks@.take(i as int) =~= vdisks@);
    let ghost first = pins@;
    let mut j: usize = 0;
    assert(snapshots@.take(0) =~= Seq::<SnapshotOffer>::empty());
    assert(first + Seq::<(BlockHash, u32, u8)>::empty() =~= first);
    while j < snapshots.len()
        invariant
            crate::map::arity(block_size) >= 2,
            j <= snapshots@.len(),
            first == vdisk_pins(vdisks@, block_size),
            pins@ == first + snapshot_pins(vdisks@, snapshots@.take(j as int), block_size),
        decreases snapshots@.len() - j,
    {
        let entry = snapshots[j];
        assert(snapshots@.take(j + 1).drop_last() =~= snapshots@.take(j as int));
        if let Some(root) = entry.3 {
            let depth: u32 = depth_of_size(block_size, entry.2);
            let tier: u8 = offer_vdisk_tier(vdisks, entry.0);
            pins.push((root, depth, tier));
            assert(pins@ =~= first + snapshot_pins(vdisks@, snapshots@.take(j + 1), block_size));
        }
        j += 1;
    }
    assert(snapshots@.take(j as int) =~= snapshots@);
    pins
}

} // verus!
