//! Offers and their roots, slice maps heard of, and blocks on the move.

use super::handle::{block_arrived, block_took, done, heard, map_taken, reads_run, waiting_on};
use super::link::version_of;
use super::pull::homes_now;
use super::reassign::{all_wants, batch_of, batch_reads, commit_settled, fed, incoming, stepped, survey_of, wants_found};
use super::resync::offer_cut;
use super::wire::{offered_tier, roots_of, snapshot_pins, vdisk_pins, EffectView, MessageView, OfferView, SYNC_BATCH};
use super::{NodeView, ReplNode};
use crate::disk::Disk;
use crate::error::{FsError, Result};
use crate::hash::{address_of, BlockHash};
use crate::pool::adoption::vdisks_ascend;
use crate::pool::checkpoint::checkpointed;
use crate::pool::sync::{pinned_roots, SnapshotOffer, VdiskOffer};
use crate::pool::{tree_depth, Pool};
use crate::slice::{is_home, Homes, NodeId, SliceMap};
use crate::table::TierHash;
use vstd::prelude::*;

verus! {

proof fn lemma_vdisk_pins(vdisks: Seq<VdiskOffer>, bs: u32, i: int)
    requires
        0 <= i < vdisks.len(),
        vdisks[i].3 is Some,
    ensures
        vdisk_pins(vdisks, bs).contains((vdisks[i].3->Some_0, tree_depth(bs, vdisks[i].1) as u32, vdisks[i].2)),
    decreases vdisks.len(),
{
    let front = vdisks.drop_last();
    let pin = (vdisks[i].3->Some_0, tree_depth(bs, vdisks[i].1) as u32, vdisks[i].2);
    if i < front.len() {
        assert(front[i] == vdisks[i]);
        lemma_vdisk_pins(front, bs, i);
        let j = choose|j: int| 0 <= j < vdisk_pins(front, bs).len() && vdisk_pins(front, bs)[j] == pin;
        assert(vdisk_pins(vdisks, bs)[j] == pin);
    } else {
        assert(vdisk_pins(vdisks, bs).last() == pin);
    }
}

proof fn lemma_snapshot_pins(vdisks: Seq<VdiskOffer>, snapshots: Seq<SnapshotOffer>, bs: u32, i: int)
    requires
        0 <= i < snapshots.len(),
        snapshots[i].3 is Some,
    ensures
        snapshot_pins(vdisks, snapshots, bs).contains(
            (snapshots[i].3->Some_0, tree_depth(bs, snapshots[i].2) as u32, offered_tier(vdisks, snapshots[i].0)),
        ),
    decreases snapshots.len(),
{
    let front = snapshots.drop_last();
    let pin = (snapshots[i].3->Some_0, tree_depth(bs, snapshots[i].2) as u32, offered_tier(vdisks, snapshots[i].0));
    if i < front.len() {
        assert(front[i] == snapshots[i]);
        lemma_snapshot_pins(vdisks, front, bs, i);
        let j = choose|j: int| 0 <= j < snapshot_pins(vdisks, front, bs).len() && snapshot_pins(vdisks, front, bs)[j] == pin;
        assert(snapshot_pins(vdisks, snapshots, bs)[j] == pin);
    } else {
        assert(snapshot_pins(vdisks, snapshots, bs).last() == pin);
    }
}

proof fn lemma_offered_tier(vdisks: Seq<VdiskOffer>, j: int)
    requires
        vdisks_ascend(vdisks),
        0 <= j < vdisks.len(),
    ensures
        offered_tier(vdisks, vdisks[j].0) == vdisks[j].2,
    decreases vdisks.len(),
{
    let rest = vdisks.drop_first();
    if j > 0 {
        assert(vdisks[0].0 < vdisks[j].0);
        assert(rest[j - 1] == vdisks[j]);
        assert forall|a: int, b: int| 0 <= a < b < rest.len() implies (#[trigger] rest[a]).0 < (#[trigger] rest[b]).0 by {
            assert(vdisks[a + 1].0 < vdisks[b + 1].0);
        }
        lemma_offered_tier(rest, j - 1);
    }
}

/// The roots of an offer are those of its vdisks and of its snapshots, none
/// left out, each with the depth of its tree and the tier of its data.
pub proof fn law_every_root_of_an_offer_is_named(vdisks: Seq<VdiskOffer>, snapshots: Seq<SnapshotOffer>, bs: u32, i: int, j: int)
    requires
        vdisks_ascend(vdisks),
        0 <= j < vdisks.len(),
    ensures
        vdisks[j].3 matches Some(root) ==> roots_of(vdisks, snapshots, bs).contains((root, tree_depth(bs, vdisks[j].1) as u32, vdisks[j].2)),
        0 <= i < snapshots.len() && snapshots[i].0 == vdisks[j].0 ==> (snapshots[i].3 matches Some(root) ==> roots_of(vdisks, snapshots, bs).contains(
            (root, tree_depth(bs, snapshots[i].2) as u32, vdisks[j].2),
        )),
{
    let all = roots_of(vdisks, snapshots, bs);
    let first = vdisk_pins(vdisks, bs);
    if vdisks[j].3 is Some {
        lemma_vdisk_pins(vdisks, bs, j);
        let pin = (vdisks[j].3->Some_0, tree_depth(bs, vdisks[j].1) as u32, vdisks[j].2);
        let k = choose|k: int| 0 <= k < first.len() && first[k] == pin;
        assert(all[k] == pin);
    }
    if 0 <= i < snapshots.len() && snapshots[i].0 == vdisks[j].0 && snapshots[i].3 is Some {
        lemma_snapshot_pins(vdisks, snapshots, bs, i);
        lemma_offered_tier(vdisks, j);
        let pin = (snapshots[i].3->Some_0, tree_depth(bs, snapshots[i].2) as u32, vdisks[j].2);
        let k = choose|k: int| 0 <= k < snapshot_pins(vdisks, snapshots, bs).len() && snapshot_pins(vdisks, snapshots, bs)[k] == pin;
        assert(all[first.len() + k] == pin);
    }
}

/// A source has the roots of its offer pinned for the peer it went to.
pub proof fn law_a_source_pins_its_offer<D: Disk>(before: &ReplNode<D>, after: &ReplNode<D>, from: NodeId, r: Result<()>, i: int, j: int)
    requires
        heard(before, after, from, MessageView::SyncStart, r),
        before@.knows(from),
        r is Ok,
    ensures
        after@.queue.last() is Send,
        after@.queue.last()->Send_1 matches MessageView::SyncManifest(offer) && {
            let bs = after.engine().unit();
            let pins = pinned_roots(&after.engine(), from);
            &&& 0 <= j < offer.vdisks.len() ==> (offer.vdisks[j].3 matches Some(root) ==> pins.contains(
                (root, tree_depth(bs, offer.vdisks[j].1) as u32, offer.vdisks[j].2),
            ))
            &&& 0 <= j < offer.vdisks.len() && 0 <= i < offer.snapshots.len() && offer.snapshots[i].0 == offer.vdisks[j].0 ==> (offer.snapshots[i].3 matches Some(
                root,
            ) ==> pins.contains((root, tree_depth(bs, offer.snapshots[i].2) as u32, offer.vdisks[j].2)))
        },
{
    let (mid, c) = choose|mid: Pool<D>, c: Result<()>| #[trigger]
        checkpointed(&before.engine(), &mid, c) && match c {
            Err(e) => r == Err::<(), FsError>(e) && after.engine() == mid && after@ == before@,
            Ok(_) => r is Ok && exists|offer: OfferView| #[trigger] offer_cut(before, &mid, after, from, offer),
        };
    let offer = choose|offer: OfferView| #[trigger] offer_cut(before, &mid, after, from, offer);
    assert(after@.queue.last() == EffectView::Send(from, MessageView::SyncManifest(offer)));
    assert(vdisks_ascend(offer.vdisks));
    if 0 <= j < offer.vdisks.len() {
        law_every_root_of_an_offer_is_named(offer.vdisks, offer.snapshots, mid.unit(), i, j);
    }
}

/// A target takes an offer only while it pulls, and only where it has every
/// tier the vdisks offered are on; it then has the offer's roots pinned for
/// the source and counts the vdisks as offered. The tables are left alone.
pub proof fn law_a_target_pins_the_offer<D: Disk>(before: &ReplNode<D>, after: &ReplNode<D>, from: NodeId, offer: OfferView, r: Result<()>, j: int)
    requires
        before.inv(),
        heard(before, after, from, MessageView::SyncManifest(offer), r),
        before@.knows(from),
        0 <= j < offer.vdisks.len(),
    ensures
        !before@.of(from).pulls() ==> r is Err && after@ == before@ && after.engine() == before.engine(),
        before@.of(from).pulls() && !crate::brick_set::ops::tier_exists(before.engine().stock().members(), offer.vdisks[j].2) ==> r is Err && r->Err_0 is NoSuchTier
            && after@ == before@ && after.engine() == before.engine(),
        r is Ok ==> {
            &&& after@.offered.contains(offer.vdisks[j].0)
            &&& vdisks_ascend(offer.vdisks) ==> (offer.vdisks[j].3 matches Some(root) ==> pinned_roots(&after.engine(), from).contains(
                (root, tree_depth(before.engine().unit(), offer.vdisks[j].1) as u32, offer.vdisks[j].2),
            ))
        },
        after.engine().vdisk_map() == before.engine().vdisk_map(),
        after.engine().snapshot_map() == before.engine().snapshot_map(),
        after.engine().lease_map() == before.engine().lease_map(),
        after.engine().stock() == before.engine().stock(),
{
    before.lemma_node();
    if before@.of(from).pulls() {
        lemma_missing(&before.engine(), offer.vdisks, j);
        if vdisks_ascend(offer.vdisks) {
            law_every_root_of_an_offer_is_named(offer.vdisks, offer.snapshots, before.engine().unit(), 0, j);
        }
        assert(super::resync::ids_of(offer.vdisks, offer.vdisks.len() as int).contains(offer.vdisks[j].0));
    }
}

proof fn lemma_missing<D: Disk>(pool: &Pool<D>, vdisks: Seq<VdiskOffer>, j: int)
    requires
        0 <= j < vdisks.len(),
    ensures
        !crate::brick_set::ops::tier_exists(pool.stock().members(), vdisks[j].2) ==> super::resync::missing_tier(pool, vdisks) is Some,
    decreases vdisks.len(),
{
    if j > 0 {
        assert(vdisks.drop_first()[j - 1] == vdisks[j]);
        lemma_missing(pool, vdisks.drop_first(), j - 1);
    }
}

/// A slice map that a peer tells of is adopted where it is newer than this
/// node's, and is then in force as it was told; an older one changes nothing.
pub proof fn law_a_newer_map_is_adopted<D: Disk>(before: &ReplNode<D>, after: &ReplNode<D>, from: NodeId, version: u64, pairs: Seq<Homes>, r: Result<()>)
    requires
        heard(before, after, from, MessageView::MapIs { version, pairs }, r),
        before@.knows(from),
    ensures
        version > version_of(&before.engine()) && r is Ok ==> {
            &&& after.engine().seat() is Some
            &&& after.engine().seat()->Some_0.0 == before.engine().seat()->Some_0.0
            &&& after.engine().seat()->Some_0.1.at_version() == version
            &&& after.engine().seat()->Some_0.1.table() == pairs
            &&& after.engine().pending() is None
        },
        version <= version_of(&before.engine()) ==> r is Ok && after.engine() == before.engine(),
        version < version_of(&before.engine()) ==> after@ == before@,
        version == version_of(&before.engine()) ==> after@.queue.len() == before@.queue.len() + 1 && after@.queue.last() is Send && after@.queue.last()->Send_0 == from
            && after@.queue.last()->Send_1 is Hello,
{
    if version > version_of(&before.engine()) && r is Ok {
        let m = choose|m: Result<SliceMap>| #[trigger]
            crate::slice::pairs_read(version, pairs, m) && match m {
                Err(e) => r == Err::<(), FsError>(e) && super::guest::idle(before, after),
                Ok(map) => exists|c: Result<()>| #[trigger] map_taken(before, after, from, map, c, r),
            };
        let map = m->Ok_0;
        let c = choose|c: Result<()>| #[trigger] map_taken(before, after, from, map, c, r);
        crate::pool::placing::law_an_adopted_map_is_newer(&before.engine(), &after.engine(), map, c);
    }
    if version == version_of(&before.engine()) {
        super::sessions::law_a_greeting_says_who_this_is(before@, after@, &before.engine(), from);
    }
}

/// A block that comes for a member that is a home of it is stored, on the
/// tier it came for and under the address of its bytes; it is moving no
/// longer, and the reads that waited for it are done.
pub proof fn law_a_moved_block_is_stored<D: Disk>(
    before: &ReplNode<D>,
    after: &ReplNode<D>,
    from: NodeId,
    tier: u8,
    payload: Seq<u8>,
    r: Result<()>,
    ticket: u64,
)
    requires
        heard(before, after, from, MessageView::ReadData(seq![(tier, payload)]), r),
        before@.knows(from),
        homes_now(&before.engine(), address_of(payload)) matches Some(homes) && homes.contains(before@.node),
        r is Ok,
    ensures
        after.engine().holds(tier).contains(address_of(payload)),
        after.engine().promised(tier).contains((address_of(payload), payload)),
        !after@.moving.contains_key(TierHash { tier, hash: address_of(payload) }),
        after@.fetched == before@.fetched,
        after.engine().vdisk_map() == before.engine().vdisk_map(),
        before@.reads.contains_key(ticket) && before@.reads[ticket].tier == tier && before@.reads[ticket].hash == address_of(payload) ==> !after@.reads.contains_key(ticket)
            && after@.queue.contains(EffectView::ReadDone(ticket)),
{
    let blocks = seq![(tier, payload)];
    let steps = choose|steps: Seq<ReplNode<D>>| #[trigger] reads_run(steps, before, after, blocks, r);
    assert(blocks[0] == (tier, payload));
    assert(block_took(&steps[0], &steps[1], blocks[0]));
    let c = choose|c: Result<BlockHash>| c is Ok && #[trigger] block_arrived(before, after, (tier, payload), c);
    let key = TierHash { tier, hash: address_of(payload) };
    let v = NodeView { moving: before@.moving.remove(key), ..before@ };
    let tickets = choose|tickets: Seq<u64>| #[trigger]
        waiting_on(v.reads, tier, address_of(payload), tickets) && after@ == (NodeView {
            queue: v.queue + done(tickets),
            reads: v.reads.remove_keys(tickets.to_set()),
            ..v
        });
    assert(tickets.to_set().contains(ticket) <==> tickets.contains(ticket));
    if tickets.contains(ticket) {
        let j = choose|j: int| 0 <= j < tickets.len() && tickets[j] == ticket;
        assert(after@.queue[v.queue.len() + j] == done(tickets)[j]);
    }
}

proof fn lemma_stepped(v: NodeView, wants: Seq<(u8, BlockHash, NodeId)>, n: nat, k: TierHash, source: NodeId)
    requires
        n <= wants.len(),
    ensures
        ({
            let s = stepped(v, wants, n);
            &&& v.moving.contains_key(k) ==> s.moving.contains_key(k) && s.moving[k] == v.moving[k]
            &&& s.moving.contains_key(k) && !v.moving.contains_key(k) ==> {
                &&& exists|i: int| 0 <= i < n && #[trigger] wants[i] == (k.tier, k.hash, s.moving[k])
                &&& v.knows(s.moving[k]) && v.of(s.moving[k]).streams()
                &&& s.batches.contains_key(s.moving[k]) && s.batches[s.moving[k]].contains((k.tier, k.hash))
            }
            &&& s.batches.contains_key(source) ==> s.batches[source].len() <= SYNC_BATCH
        }),
    decreases n,
{
    if n > 0 {
        let rest = stepped(v, wants, (n - 1) as nat);
        lemma_stepped(v, wants, (n - 1) as nat, k, source);
        let s = stepped(v, wants, n);
        let (tier, hash, from) = wants[n - 1];
        let here = TierHash { tier, hash };
        let batch = batch_of(rest.batches, from);
        lemma_stepped(v, wants, (n - 1) as nat, k, from);
        if !rest.moving.contains_key(here) && v.knows(from) && v.of(from).streams() && batch.len() < SYNC_BATCH {
            let next = batch.push((tier, hash));
            if k == here && !v.moving.contains_key(k) {
                assert(wants[n - 1] == (k.tier, k.hash, s.moving[k]));
                assert(next.last() == (tier, hash));
                assert(s.batches[from] == next);
            } else if rest.moving.contains_key(k) && !v.moving.contains_key(k) {
                let at = s.moving[k];
                assert(at == rest.moving[k]);
                if at == from {
                    let j = choose|j: int| 0 <= j < rest.batches[at].len() && rest.batches[at][j] == (k.tier, k.hash);
                    assert(s.batches[at][j] == (k.tier, k.hash));
                }
            }
        }
    }
}

proof fn lemma_batch_reads(batches: Map<NodeId, Seq<(u8, BlockHash)>>, n: nat, id: NodeId)
    requires
        n <= 256,
        id < n,
        batches.contains_key(id),
    ensures
        batch_reads(batches, n).contains(EffectView::Send(id, MessageView::Read(batches[id]))),
    decreases n,
{
    let rest = batch_reads(batches, (n - 1) as nat);
    let e = EffectView::Send(id, MessageView::Read(batches[id]));
    if id == n - 1 {
        assert(batch_reads(batches, n).last() == e);
    } else {
        lemma_batch_reads(batches, (n - 1) as nat, id);
        let j = choose|j: int| 0 <= j < rest.len() && rest[j] == e;
        assert(batch_reads(batches, n)[j] == e);
    }
}

/// A move that is newly under way is one that was owed, asked of its source,
/// which follows, in a batch no larger than a batch may be; one that was
/// under way stays so.
pub proof fn law_moves_are_asked_of_their_sources(v: NodeView, wants: Seq<(u8, BlockHash, NodeId)>, k: TierHash)
    ensures
        ({
            let after = v.moves_asked(wants);
            &&& v.moving.contains_key(k) ==> after.moving.contains_key(k) && after.moving[k] == v.moving[k]
            &&& after.moving.contains_key(k) && !v.moving.contains_key(k) ==> {
                &&& wants.contains((k.tier, k.hash, after.moving[k]))
                &&& v.knows(after.moving[k]) && v.of(after.moving[k]).streams()
                &&& exists|j: int|
                    v.queue.len() <= j < after.queue.len() && #[trigger] after.queue[j] is Send && after.queue[j]->Send_0 == after.moving[k] && after.queue[j]->Send_1 is Read
                        && after.queue[j]->Send_1->Read_0.contains((k.tier, k.hash)) && after.queue[j]->Send_1->Read_0.len() <= SYNC_BATCH
            }
            &&& after.peers == v.peers && after.parked == v.parked
        }),
{
    let after = v.moves_asked(wants);
    let s = stepped(v, wants, wants.len());
    lemma_stepped(v, wants, wants.len(), k, 0);
    if after.moving.contains_key(k) && !v.moving.contains_key(k) {
        let at = after.moving[k];
        lemma_stepped(v, wants, wants.len(), k, at);
        let i = choose|i: int| 0 <= i < wants.len() && #[trigger] wants[i] == (k.tier, k.hash, at);
        assert(wants[i] == (k.tier, k.hash, at));
        lemma_batch_reads(s.batches, 256, at);
        let reads = batch_reads(s.batches, 256);
        let j = choose|j: int| 0 <= j < reads.len() && reads[j] == EffectView::Send(at, MessageView::Read(s.batches[at]));
        assert(after.queue[v.queue.len() + j] == reads[j]);
    }
}

/// A reassignment is committed only where nothing is owed: every block that a
/// vdisk or a snapshot leads to, and that the new map brings to this member,
/// is here. The new map is then in force.
pub proof fn law_a_commit_owes_no_move<D: Disk>(before: &ReplNode<D>, after: &ReplNode<D>, r: Result<()>)
    requires
        commit_settled(before, after, r),
        r is Ok,
    ensures
        after@ == before@,
        before.engine().pending() is Some && before.engine().seat() is Some,
        after.engine().seat() is Some,
        after.engine().seat()->Some_0.0 == before.engine().seat()->Some_0.0,
        after.engine().seat()->Some_0.1 == before.engine().pending()->Some_0,
        after.engine().pending() is None,
        exists|mid: Pool<D>, vdisks: Seq<VdiskOffer>, snapshots: Seq<SnapshotOffer>|
            #![trigger crate::pool::sync::offered_whole(&mid, vdisks, snapshots)]
            crate::pool::sync::offered_whole(&mid, vdisks, snapshots) && mid.vdisk_map().dom() == before.engine().vdisk_map().dom() && mid.snapshot_map()
                == before.engine().snapshot_map() && mid.seat() == before.engine().seat() && mid.pending() == before.engine().pending() && forall|tier: u8, d: BlockHash| #[trigger]
                fed(&mid, roots_of(vdisks, snapshots, mid.unit()), tier, d) && is_home(mid.pending()->Some_0.home_pair(d), mid.seat()->Some_0.0) && !is_home(
                    mid.seat()->Some_0.1.home_pair(d),
                    mid.seat()->Some_0.0,
                ) ==> mid.holds(tier).contains(d),
{
    let (mid, wants) = choose|mid: Pool<D>, wants: Result<Vec<(u8, BlockHash, NodeId)>>| #[trigger]
        wants_found(&before.engine(), &mid, wants) && match wants {
            Err(e) => r == Err::<(), FsError>(e) && after.engine() == mid,
            Ok(list) => if list@.len() > 0 {
                r == Err::<(), FsError>(FsError::Placement("moves are still owed; a commit now would license dropping their sources")) && after.engine() == mid
            } else {
                mid.seat() is Some && mid.pending() is Some && crate::pool::snapshot::map_committed(
                    &mid,
                    &after.engine(),
                    mid.seat()->Some_0.0,
                    mid.pending()->Some_0,
                    r,
                )
            },
        };
    let list = wants->Ok_0@;
    let c = choose|c: Result<()>| #[trigger] checkpointed(&before.engine(), &mid, c) && match c {
        Err(e) => wants == Err::<Vec<(u8, BlockHash, NodeId)>, FsError>(e),
        Ok(_) => exists|vdisks: Seq<VdiskOffer>, snapshots: Seq<SnapshotOffer>| #[trigger] survey_of(&mid, vdisks, snapshots, wants),
    };
    let (vdisks, snapshots) = choose|vdisks: Seq<VdiskOffer>, snapshots: Seq<SnapshotOffer>| #[trigger] survey_of(&mid, vdisks, snapshots, wants);
    let roots = roots_of(vdisks, snapshots, mid.unit());
    assert(all_wants(&mid, roots, list));
    assert forall|tier: u8, d: BlockHash| #[trigger]
        fed(&mid, roots, tier, d) && is_home(mid.pending()->Some_0.home_pair(d), mid.seat()->Some_0.0) && !is_home(
            mid.seat()->Some_0.1.home_pair(d),
            mid.seat()->Some_0.0,
        ) implies mid.holds(tier).contains(d) by {
        assert(incoming(&mid, d));
        if !mid.holds(tier).contains(d) {
            assert(super::reassign::wants_block(list, tier, d));
        }
    }
    assert(crate::pool::sync::offered_whole(&mid, vdisks, snapshots));
}

} // verus!
