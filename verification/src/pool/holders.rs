//! Who may write, before and after each call on a lease.

use super::lease::{claimed, handover_aborted, handover_begun, relinquished, writer};
use super::{Lease, Pool};
use crate::disk::Disk;
use crate::error::{FsError, Result};
use crate::slice::NodeId;
use vstd::prelude::*;

verus! {

/// Every lease but one vdisk's is as it was.
pub open spec fn other_leases_kept<D: Disk>(before: &Pool<D>, after: &Pool<D>, vdisk: u64) -> bool {
    forall|v: u64|
        v != vdisk ==> (#[trigger] after.lease_map().contains_key(v) <==> before.lease_map().contains_key(v)) && (before.lease_map().contains_key(v)
            ==> after.lease_map()[v] == before.lease_map()[v])
}

/// A claim is refused where another node holds the lease in this era or a
/// later one. Where it succeeds, the claimant holds it in this era and hands
/// it to nobody, so the claimant may write and no other node may; no other
/// lease changes, and a refused claim changes none.
pub proof fn law_a_claim_takes_a_free_pen<D: Disk>(before: &Pool<D>, after: &Pool<D>, vdisk: u64, node: NodeId, r: Result<()>, other: NodeId)
    requires
        claimed(before, after, vdisk, node, r),
    ensures
        before.lease_map().contains_key(vdisk) && before.lease_map()[vdisk].era >= before.era_now() && before.lease_map()[vdisk].holder != node ==> r == Err::<(), FsError>(
            FsError::LeaseHeld { vdisk, holder: before.lease_map()[vdisk].holder },
        ),
        writer(before.lease_map(), before.era_now(), vdisk, other) && other != node ==> r is Err,
        !before.vdisk_map().contains_key(vdisk) ==> r is Err,
        r is Ok ==> {
            &&& after.lease_map().contains_key(vdisk)
            &&& after.lease_map()[vdisk] == (Lease { holder: node, handing_to: None, era: before.era_now() })
            &&& writer(after.lease_map(), after.era_now(), vdisk, other) <==> other == node
        },
        r is Err ==> after.lease_map() == before.lease_map(),
        other_leases_kept(before, after, vdisk),
        after.vdisk_map() == before.vdisk_map(),
        after.snapshot_map() == before.snapshot_map(),
        after.era_now() == before.era_now(),
{
}

/// A handover is begun by the node that may write, and by no other; until it
/// ends, that node still may, and no other.
pub proof fn law_a_handover_begun_keeps_the_pen<D: Disk>(before: &Pool<D>, after: &Pool<D>, vdisk: u64, from: NodeId, to: NodeId, r: Result<()>, other: NodeId)
    requires
        handover_begun(before, after, vdisk, from, to, r),
    ensures
        r is Ok ==> {
            &&& before.lease_map().contains_key(vdisk)
            &&& before.lease_map()[vdisk].holder == from
            &&& before.lease_map()[vdisk].era >= before.era_now()
            &&& after.lease_map().contains_key(vdisk)
            &&& after.lease_map()[vdisk] == (Lease { holder: from, handing_to: Some(to), era: before.era_now() })
            &&& writer(after.lease_map(), after.era_now(), vdisk, other) <==> other == from
        },
        !before.lease_map().contains_key(vdisk) || before.lease_map()[vdisk].holder != from || before.lease_map()[vdisk].era < before.era_now() ==> r == Err::<
            (),
            FsError,
        >(FsError::NotWriter(vdisk)),
        r is Err ==> after.lease_map() == before.lease_map(),
        other_leases_kept(before, after, vdisk),
        after.vdisk_map() == before.vdisk_map(),
        after.era_now() == before.era_now(),
{
}

/// Giving up the pen ends the handover that was begun, to the node it was
/// begun for: that node may write from then on, and no other.
pub proof fn law_relinquishing_moves_the_pen<D: Disk>(before: &Pool<D>, after: &Pool<D>, vdisk: u64, from: NodeId, to: NodeId, r: Result<()>, other: NodeId)
    requires
        relinquished(before, after, vdisk, from, to, r),
    ensures
        r is Ok ==> {
            &&& before.lease_map().contains_key(vdisk)
            &&& before.lease_map()[vdisk].holder == from
            &&& before.lease_map()[vdisk].handing_to == Some(to)
            &&& before.lease_map()[vdisk].era >= before.era_now()
            &&& after.lease_map().contains_key(vdisk)
            &&& after.lease_map()[vdisk] == (Lease { holder: to, handing_to: None, era: before.era_now() })
            &&& writer(after.lease_map(), after.era_now(), vdisk, other) <==> other == to
        },
        !before.lease_map().contains_key(vdisk) || before.lease_map()[vdisk].holder != from || before.lease_map()[vdisk].era < before.era_now()
            || before.lease_map()[vdisk].handing_to != Some(to) ==> r == Err::<(), FsError>(FsError::NoSuchHandover(vdisk)),
        r is Err ==> after.lease_map() == before.lease_map(),
        other_leases_kept(before, after, vdisk),
        after.vdisk_map() == before.vdisk_map(),
        after.era_now() == before.era_now(),
{
}

/// A handover that is called off leaves the pen with its holder, in the era
/// it was held in.
pub proof fn law_an_aborted_handover_leaves_the_pen<D: Disk>(before: &Pool<D>, after: &Pool<D>, vdisk: u64, from: NodeId, r: Result<()>, node: NodeId)
    requires
        handover_aborted(before, after, vdisk, from, r),
    ensures
        r is Ok ==> {
            &&& before.lease_map().contains_key(vdisk)
            &&& before.lease_map()[vdisk].holder == from
            &&& before.lease_map()[vdisk].handing_to is Some
            &&& after.lease_map().contains_key(vdisk)
            &&& after.lease_map()[vdisk] == (Lease { handing_to: None, ..before.lease_map()[vdisk] })
        },
        !before.lease_map().contains_key(vdisk) || before.lease_map()[vdisk].holder != from || before.lease_map()[vdisk].handing_to is None ==> r == Err::<(), FsError>(
            FsError::NoSuchHandover(vdisk),
        ),
        writer(after.lease_map(), after.era_now(), vdisk, node) <==> writer(before.lease_map(), before.era_now(), vdisk, node),
        r is Err ==> after.lease_map() == before.lease_map(),
        other_leases_kept(before, after, vdisk),
        after.vdisk_map() == before.vdisk_map(),
        after.era_now() == before.era_now(),
{
}

/// Begin, then give up: only the node the handover was begun for gets the
/// pen.
pub proof fn law_a_handover_goes_where_it_was_begun<D: Disk>(
    a: &Pool<D>,
    b: &Pool<D>,
    c: &Pool<D>,
    vdisk: u64,
    from: NodeId,
    to: NodeId,
    target: NodeId,
    begun: Result<()>,
    ended: Result<()>,
)
    requires
        handover_begun(a, b, vdisk, from, to, begun),
        begun is Ok,
        relinquished(b, c, vdisk, from, target, ended),
    ensures
        ended is Ok ==> target == to && c.lease_map()[vdisk].holder == to,
        ended is Err ==> c.lease_map()[vdisk].holder == from,
{
}

} // verus!
