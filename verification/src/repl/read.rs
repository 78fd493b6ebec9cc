//! Reads: local when this member homes the block, a fetch when it does not.

use super::wire::{Effect, MessageView, PeerMessage};
use super::{NodeView, PendingRead, ReplNode};
use crate::disk::Disk;
use crate::error::{FsError, Result};
use crate::hash::BlockHash;
use crate::pool::vdisk::{block_read, snapshot_read};
use crate::slice::{Homes, NodeId};
use crate::table::TierHash;
use vstd::prelude::*;

verus! {

/// What the node answers a read whose block may live elsewhere: a fetched
/// payload is served once, and kept no longer.
pub open spec fn served_once(v: NodeView, after: NodeView, local: Result<Option<Vec<u8>>>, r: Result<Option<Vec<u8>>>) -> bool {
    match local {
        Err(FsError::BlockElsewhere { tier, hash }) => {
            let key = TierHash { tier, hash };
            if v.fetched.contains_key(key) {
                &&& r is Ok
                &&& r->Ok_0 is Some
                &&& r->Ok_0->Some_0@ == v.fetched[key]
                &&& after == (NodeView { fetched: v.fetched.remove(key), ..v })
            } else {
                r == local && after == v
            }
        },
        _ => r == local && after == v,
    }
}

/// A home other than this node whose session streams.
pub open spec fn askable(v: NodeView, home: NodeId) -> bool {
    home != v.node && v.knows(home) && v.of(home).streams()
}

/// The home to ask for a block: the first that can be asked.
pub open spec fn fetch_target(v: NodeView, homes: Homes) -> Option<NodeId> {
    if askable(v, homes@[0]) {
        Some(homes@[0])
    } else if askable(v, homes@[1]) {
        Some(homes@[1])
    } else {
        None
    }
}

/// What reading a block comes to: the pool's answer, or a fetched payload in
/// place of a block that lives elsewhere.
pub open spec fn read_served<D: Disk>(before: &ReplNode<D>, after: &ReplNode<D>, vdisk: u64, index: u64, r: Result<Option<Vec<u8>>>) -> bool {
    &&& after.engine() == before.engine()
    &&& exists|local: Result<Option<Vec<u8>>>| #[trigger] block_read(&before.engine(), vdisk, index, local) && served_once(before@, after@, local, r)
}

/// What fetching a block comes to.
pub open spec fn block_asked<D: Disk>(before: &ReplNode<D>, after: &ReplNode<D>, tier: u8, hash: BlockHash, r: Result<u64>) -> bool {
    match before.engine().seat() {
        None => r == Err::<u64, FsError>(FsError::Corrupt("a fetch on a member that holds everything")) && after@ == before@,
        Some((node, map)) => match fetch_target(before@, map.home_pair(hash)) {
            None => r == Err::<u64, FsError>(FsError::SliceUnreachable(hash.0@[0])) && after@ == before@,
            Some(target) => if before@.next_ticket == u64::MAX {
                r is Err && after@ == before@
            } else {
                &&& r == Ok::<u64, FsError>(before@.next_ticket)
                &&& after@ == (NodeView {
                    next_ticket: (before@.next_ticket + 1) as u64,
                    reads: before@.reads.insert(before@.next_ticket, PendingRead { tier, hash, target }),
                    ..before@
                }).tells(target, MessageView::Read(seq![(tier, hash)]))
            },
        },
    }
}

impl<D: Disk> ReplNode<D> {
    /// Read one block. One this member does not store is `BlockElsewhere`
    /// unless a fetch already brought it. The caller's loop is: read, fetch
    /// on `BlockElsewhere`, read again.
    pub fn read_block(&mut self, vdisk: u64, index: u64) -> (r: Result<Option<Vec<u8>>>)
        requires
            old(self).inv(),
        ensures
            final(self).inv(),
            read_served(old(self), final(self), vdisk, index, r),
    {
        let local = self.pool.read_block(vdisk, index);
        let ghost found = local;
        assert(block_read(&self.engine(), vdisk, index, found));
        self.serve_fetched(local)
    }

    pub fn read_snapshot_block(&mut self, vdisk: u64, snapshot: u64, index: u64) -> (r: Result<Option<Vec<u8>>>)
        requires
            old(self).inv(),
        ensures
            final(self).inv(),
            final(self).engine() == old(self).engine(),
            exists|local: Result<Option<Vec<u8>>>| #[trigger]
                snapshot_read(&old(self).engine(), vdisk, snapshot, index, local) && served_once(old(self)@, final(self)@, local, r),
    {
        let local = self.pool.read_snapshot_block(vdisk, snapshot, index);
        let ghost found = local;
        assert(snapshot_read(&self.engine(), vdisk, snapshot, index, found));
        self.serve_fetched(local)
    }

    fn serve_fetched(&mut self, local: Result<Option<Vec<u8>>>) -> (r: Result<Option<Vec<u8>>>)
        requires
            old(self).inv(),
        ensures
            final(self).inv(),
            final(self).engine() == old(self).engine(),
            served_once(old(self)@, final(self)@, local, r),
    {
        if let Err(FsError::BlockElsewhere { tier, hash }) = local {
            let key = TierHash { tier, hash };
            let ghost before = self@;
            return match self.fetched.take(&key) {
                Some(payload) => {
                    assert(self@.fetched =~= before.fetched.remove(key));
                    Ok(Some(payload))
                },
                None => {
                    assert(self@.fetched =~= before.fetched);
                    local
                },
            };
        }
        local
    }

    /// Ask a home for a block this member does not store. The ticket
    /// completes as `ReadDone` when the payload arrives, or `ReadFailed` if
    /// the session dies first. A node that has handed out every ticket
    /// number refuses.
    pub fn fetch_block(&mut self, tier: u8, hash: BlockHash) -> (r: Result<u64>)
        requires
            old(self).inv(),
        ensures
            final(self).inv(),
            final(self).engine() == old(self).engine(),
            block_asked(old(self), final(self), tier, hash, r),
    {
        let homes: Homes = match self.pool.placement() {
            Some((_, map)) => {
                proof {
                    self.pool.lemma_pool();
                }
                map.homes_of(&hash)
            },
            None => {
                return Err(FsError::Corrupt("a fetch on a member that holds everything"));
            },
        };
        let target: NodeId = if homes[0] != self.node && self.streams_to(homes[0]) {
            homes[0]
        } else if homes[1] != self.node && self.streams_to(homes[1]) {
            homes[1]
        } else {
            return Err(FsError::SliceUnreachable(crate::slice::slice_of(&hash) as u8));
        };
        let ticket: u64 = self.next_ticket;
        if ticket == u64::MAX {
            return Err(FsError::Corrupt("every ticket number has been handed out"));
        }
        self.next_ticket = ticket + 1;
        self.pending_reads.insert(ticket, PendingRead { tier, hash, target });
        let wants: Vec<(u8, BlockHash)> = vec![(tier, hash)];
        assert(wants@ =~= seq![(tier, hash)]);
        self.emit(Effect::Send(target, PeerMessage::Read(wants)));
        Ok(ticket)
    }
}

/// A fetched block is served exactly once: the read after the one that took
/// it is told, again, that the block is elsewhere.
pub proof fn law_fetched_blocks_are_served_once(
    v: NodeView,
    mid: NodeView,
    after: NodeView,
    tier: u8,
    hash: BlockHash,
    local: Result<Option<Vec<u8>>>,
    first: Result<Option<Vec<u8>>>,
    second: Result<Option<Vec<u8>>>,
)
    requires
        local == Err::<Option<Vec<u8>>, FsError>(FsError::BlockElsewhere { tier, hash }),
        served_once(v, mid, local, first),
        served_once(mid, after, local, second),
    ensures
        second == local,
        after == mid,
{
}

} // verus!
