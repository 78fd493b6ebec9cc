//! What reads give at the member that serves a guest and at its peers.

use super::reads::{lemma_read, reads_alike};
use super::{block_here, lemma_op_sets, lemma_set_reads, pool_sound};
use crate::disk::Disk;
use crate::error::{FsError, Result};
use crate::hash::address_of;
use crate::pool::vdisk::block_read;
use crate::pool::Pool;
use crate::repl::guest::{op_served, stored_and_mapped, write_served};
use crate::repl::handle::heard;
use crate::repl::lockstep::{law_blocks_sent_are_stored, law_streamed_ops_are_run_in_order, ran};
use crate::repl::ops::op_done;
use crate::repl::wire::{MessageView, ReplOp};
use crate::repl::ReplNode;
use crate::slice::NodeId;
use vstd::prelude::*;

verus! {

/// A block that a guest writes to a member without a placement reads back
/// there, and no other read changes; a write that is refused changes none.
pub proof fn law_a_guest_reads_what_it_wrote<D: Disk>(
    before: &ReplNode<D>,
    after: &ReplNode<D>,
    vdisk: u64,
    index: u64,
    payload: Seq<u8>,
    w: Result<()>,
    r: Result<Option<Vec<u8>>>,
    v: u64,
    k: u64,
    was: Result<Option<Vec<u8>>>,
    is: Result<Option<Vec<u8>>>,
)
    requires
        write_served(before, after, vdisk, index, payload, w),
        before.engine().seat() is None,
        before.engine().reliable(),
        after.engine().reliable(),
        pool_sound(&after.engine()),
        block_read(&after.engine(), vdisk, index, r),
        block_read(&before.engine(), v, k, was),
        block_read(&after.engine(), v, k, is),
    ensures
        w is Ok ==> r is Ok && r->Ok_0 is Some && r->Ok_0->Some_0@ == payload,
        v != vdisk || k != index || w is Err ==> reads_alike(was, is),
{
    let (a, b) = (before.engine(), after.engine());
    lemma_read(&b, vdisk, index, r);
    lemma_read(&a, v, k, was);
    lemma_read(&b, v, k, is);
    if crate::repl::guest::block_refusal(before@, &a, vdisk, address_of(payload)) is None {
        let hash = address_of(payload);
        let op = ReplOp::Write { vdisk, index, hash };
        let tier = a.vdisk_map()[vdisk].tier;
        let homes = crate::repl::guest::homes_for(before@, &a, hash);
        let (mid, c) = choose|mid: Pool<D>, c: Result<()>| #[trigger]
            stored_and_mapped(&a, &mid, &b, homes.contains(before@.node), tier, payload, op, c, w);
        assert(homes == crate::repl::guest::everyone(before@));
        assert(homes.last() == before@.node);
        assert(homes.contains(before@.node));
        if c is Ok {
            lemma_op_sets(&mid, &b, vdisk, index, Some(hash), op, w);
            super::lemma_sound_before(&mid, &b);
            super::lemma_growth_keeps(&a, &mid);
            if w is Ok {
                assert(mid.promised(tier).contains((hash, payload)));
                assert(b.promised(tier).contains((hash, payload)));
                lemma_set_reads(&mid, &b, vdisk, index, hash, payload, w);
            }
        } else {
            super::lemma_growth_keeps(&a, &mid);
        }
    }
}

/// A block that a guest trims reads as never written, and no other read
/// changes.
pub proof fn law_a_guest_reads_nothing_where_it_trimmed<D: Disk>(
    before: &ReplNode<D>,
    after: &ReplNode<D>,
    vdisk: u64,
    index: u64,
    w: Result<()>,
    r: Result<Option<Vec<u8>>>,
    v: u64,
    k: u64,
    was: Result<Option<Vec<u8>>>,
    is: Result<Option<Vec<u8>>>,
)
    requires
        op_served(before, after, vdisk, ReplOp::Trim { vdisk, index }, w),
        before.engine().reliable(),
        after.engine().reliable(),
        pool_sound(&after.engine()),
        block_read(&after.engine(), vdisk, index, r),
        block_read(&before.engine(), v, k, was),
        block_read(&after.engine(), v, k, is),
    ensures
        w is Ok ==> r == Ok::<Option<Vec<u8>>, FsError>(None),
        v != vdisk || k != index || w is Err ==> reads_alike(was, is),
{
    let (a, b) = (before.engine(), after.engine());
    lemma_read(&b, vdisk, index, r);
    lemma_read(&a, v, k, was);
    lemma_read(&b, v, k, is);
    if crate::repl::guest::write_refusal(before@, &a, vdisk) is None {
        lemma_op_sets(&a, &b, vdisk, index, None, ReplOp::Trim { vdisk, index }, w);
    }
}

/// A block that was sent to a peer without a placement, and then mapped by an
/// operation of the stream, reads there as it was sent.
pub proof fn law_a_streamed_write_reads_back_at_the_peer<D: Disk>(
    a: &ReplNode<D>,
    b: &ReplNode<D>,
    c: &ReplNode<D>,
    from: NodeId,
    tier: u8,
    payload: Seq<u8>,
    first_rseq: u64,
    vdisk: u64,
    index: u64,
    sent: Result<()>,
    applied: Result<()>,
    r: Result<Option<Vec<u8>>>,
)
    requires
        heard(a, b, from, MessageView::Payloads(seq![(tier, payload)]), sent),
        heard(b, c, from, MessageView::Apply { first_rseq, ops: seq![ReplOp::Write { vdisk, index, hash: address_of(payload) }] }, applied),
        a@.knows(from),
        !a@.of(from).pulls(),
        a.engine().seat() is None,
        sent is Ok,
        applied is Ok,
        b.engine().vdisk_map()[vdisk].tier == tier,
        c.engine().reliable(),
        pool_sound(&c.engine()),
        block_read(&c.engine(), vdisk, index, r),
    ensures
        r is Ok,
        r->Ok_0 is Some,
        r->Ok_0->Some_0@ == payload,
{
    let hash = address_of(payload);
    let blocks = seq![(tier, payload)];
    let op = ReplOp::Write { vdisk, index, hash };
    let ops = seq![op];
    law_blocks_sent_are_stored(a, b, from, blocks, sent, 0);
    assert(b@ == a@);
    law_streamed_ops_are_run_in_order(b, c, from, first_rseq, ops, applied);
    let steps = choose|steps: Seq<Pool<D>>|
        steps.len() == ops.len() + 1 && #[trigger] steps[0] == b.engine() && steps.last() == c.engine() && forall|i: int|
            0 <= i < ops.len() ==> ran(&steps[i], &steps[i + 1], #[trigger] ops[i]);
    assert(ran(&steps[0], &steps[1], ops[0]));
    assert(steps[1] == c.engine());
    let x = c.engine();
    let (mid, d) = choose|mid: Pool<D>, d: Result<()>| #[trigger]
        op_done(&b.engine(), &mid, op, d) && d is Ok && x.vdisk_map() == mid.vdisk_map() && x.snapshot_map() == mid.snapshot_map() && x.lease_map() == mid.lease_map()
            && x.era_now() == mid.era_now() && x.stock() == mid.stock();
    lemma_op_sets(&b.engine(), &mid, vdisk, index, Some(hash), op, d);
    assert(b.engine().promised(tier).contains((hash, payload)));
    assert(mid.promised(tier).contains((hash, payload)));
    assert(pool_sound(&mid)) by {
        assert forall|t: u8| #[trigger] mid.faithful(t) by {
            assert(x.faithful(t));
        }
        assert forall|t: u8, h: crate::hash::BlockHash| #[trigger] mid.shelf(t).contains_key(h) implies !crate::store::is_zero(h) by {
            assert(x.shelf(t).contains_key(h));
        }
    }
    lemma_set_reads(&b.engine(), &mid, vdisk, index, hash, payload, d);
    lemma_read(&x, vdisk, index, r);
    assert(block_here(&x, vdisk, index) == block_here(&mid, vdisk, index));
}

} // verus!
