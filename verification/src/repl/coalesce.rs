//! Merging what one call queued into as few messages as the streams' meaning
//! allows.
//!
//! A payload may move earlier; an op may not: the peer must hold a block
//! before the op referencing it applies. Ops merge only while their
//! numbering is dense. Any other message to the same peer is a barrier:
//! nothing merges across it. Effects that are not sends pass through
//! untouched.

use super::wire::{blocks_view, effects_view, Effect, EffectView, MessageView, PeerMessage, ReplOp};
use super::{NodeView, ReplNode};
use crate::disk::Disk;
use crate::slice::NodeId;
use crate::table::{SortKey, SortedMap};
use vstd::prelude::*;

verus! {

/// The ops an effect carries to a peer, each with its number.
pub open spec fn ops_of(e: EffectView, p: NodeId) -> Seq<(int, ReplOp)> {
    match e {
        EffectView::Send(q, MessageView::Apply { first_rseq, ops }) => if q == p {
            Seq::new(ops.len(), |i: int| (first_rseq + i, ops[i]))
        } else {
            Seq::empty()
        },
        _ => Seq::empty(),
    }
}

/// The blocks an effect carries to a peer.
pub open spec fn blocks_of(e: EffectView, p: NodeId) -> Seq<(u8, Seq<u8>)> {
    match e {
        EffectView::Send(q, MessageView::Payloads(blocks)) => if q == p {
            blocks
        } else {
            Seq::empty()
        },
        _ => Seq::empty(),
    }
}

/// A message to a peer that is neither: a barrier.
pub open spec fn is_bar(e: EffectView, p: NodeId) -> bool {
    match e {
        EffectView::Send(q, m) => q == p && !(m is Apply) && !(m is Payloads),
        _ => false,
    }
}

/// Every op on its way to a peer, in order.
pub open spec fn ops_to(s: Seq<EffectView>, p: NodeId) -> Seq<(int, ReplOp)>
    decreases s.len(),
{
    if s.len() == 0 {
        Seq::empty()
    } else {
        ops_to(s.drop_last(), p) + ops_of(s.last(), p)
    }
}

/// Every block on its way to a peer, in order.
pub open spec fn blocks_to(s: Seq<EffectView>, p: NodeId) -> Seq<(u8, Seq<u8>)>
    decreases s.len(),
{
    if s.len() == 0 {
        Seq::empty()
    } else {
        blocks_to(s.drop_last(), p) + blocks_of(s.last(), p)
    }
}

/// Every barrier on its way to a peer, with how many ops and how many blocks
/// go before it.
pub open spec fn bars_to(s: Seq<EffectView>, p: NodeId) -> Seq<(EffectView, nat, nat)>
    decreases s.len(),
{
    if s.len() == 0 {
        Seq::empty()
    } else if is_bar(s.last(), p) {
        bars_to(s.drop_last(), p).push((s.last(), ops_to(s.drop_last(), p).len(), blocks_to(s.drop_last(), p).len()))
    } else {
        bars_to(s.drop_last(), p)
    }
}

/// How many blocks go before each op on its way to a peer.
pub open spec fn ahead(s: Seq<EffectView>, p: NodeId) -> Seq<nat>
    decreases s.len(),
{
    if s.len() == 0 {
        Seq::empty()
    } else {
        ahead(s.drop_last(), p) + Seq::new(ops_of(s.last(), p).len(), |i: int| blocks_to(s.drop_last(), p).len())
    }
}

/// The effects that are not sends.
pub open spec fn locals(s: Seq<EffectView>) -> Seq<EffectView>
    decreases s.len(),
{
    if s.len() == 0 {
        Seq::empty()
    } else if s.last() is Send {
        locals(s.drop_last())
    } else {
        locals(s.drop_last()).push(s.last())
    }
}

/// No op has fewer blocks ahead of it.
pub open spec fn no_later(a: Seq<nat>, b: Seq<nat>) -> bool {
    a.len() == b.len() && forall|i: int| 0 <= i < a.len() ==> #[trigger] a[i] <= #[trigger] b[i]
}

/// The same stream to a peer: the same ops, blocks and barriers in the same
/// order, the same ops and blocks before each barrier, and every block still
/// ahead of every op it was ahead of.
pub open spec fn same_stream(a: Seq<EffectView>, b: Seq<EffectView>, p: NodeId) -> bool {
    &&& ops_to(b, p) == ops_to(a, p)
    &&& blocks_to(b, p) == blocks_to(a, p)
    &&& bars_to(b, p) == bars_to(a, p)
    &&& no_later(ahead(a, p), ahead(b, p))
}

/// The same effects, in perhaps fewer messages.
pub open spec fn coalesced(a: Seq<EffectView>, b: Seq<EffectView>) -> bool {
    &&& b.len() <= a.len()
    &&& locals(b) == locals(a)
    &&& forall|p: NodeId| #[trigger] same_stream(a, b, p)
}

/// A payloads message to a peer.
pub open spec fn is_blocks(e: EffectView, p: NodeId) -> bool {
    e matches EffectView::Send(q, MessageView::Payloads(_)) && q == p
}

/// A message to a peer.
pub open spec fn is_to(e: EffectView, p: NodeId) -> bool {
    e matches EffectView::Send(q, _) && q == p
}

/// A barrier stands between two places.
pub open spec fn bar_in(s: Seq<EffectView>, p: NodeId, i: int, j: int) -> bool {
    exists|k: int| i < k < j && is_bar(#[trigger] s[k], p)
}

/// Nothing goes to the peer between two places.
pub open spec fn quiet_in(s: Seq<EffectView>, p: NodeId, i: int, j: int) -> bool {
    forall|k: int| i < k < j ==> !is_to(#[trigger] s[k], p)
}

/// A batch of ops to a peer, numbered up to `next`.
pub open spec fn ends_at(e: EffectView, p: NodeId, next: int) -> bool {
    e matches EffectView::Send(q, MessageView::Apply { first_rseq, ops }) && q == p && first_rseq + ops.len() == next
}

/// A batch of ops to a peer, numbered from `next`, with numbers left.
pub open spec fn starts_at(e: EffectView, p: NodeId, next: int) -> bool {
    e matches EffectView::Send(q, MessageView::Apply { first_rseq, ops }) && q == p && first_rseq == next && first_rseq + ops.len() <= u64::MAX
}

/// Two messages to a peer that could be one: two payloads messages with no
/// barrier between them, or two batches of ops with nothing between them,
/// the second continuing the first.
pub open spec fn mergeable(s: Seq<EffectView>, p: NodeId, i: int, j: int) -> bool {
    ||| is_blocks(s[i], p) && is_blocks(s[j], p) && !bar_in(s, p, i, j)
    ||| quiet_in(s, p, i, j) && exists|next: int| #[trigger] ends_at(s[i], p, next) && starts_at(s[j], p, next)
}

/// No two messages could be one.
pub open spec fn tight(s: Seq<EffectView>) -> bool {
    forall|p: NodeId, i: int, j: int| 0 <= i < j < s.len() ==> !(#[trigger] mergeable(s, p, i, j))
}

/// The payloads message to a peer that still takes blocks: the last, unless
/// a barrier went after it.
pub open spec fn open_blocks(s: Seq<EffectView>, p: NodeId) -> Option<int>
    decreases s.len(),
{
    if s.len() == 0 || is_bar(s.last(), p) {
        None
    } else if is_blocks(s.last(), p) {
        Some(s.len() - 1)
    } else {
        open_blocks(s.drop_last(), p)
    }
}

/// The batch of ops to a peer that still takes ops: the last message to it,
/// if that is one.
pub open spec fn open_ops(s: Seq<EffectView>, p: NodeId) -> Option<int>
    decreases s.len(),
{
    if s.len() == 0 {
        None
    } else if is_to(s.last(), p) {
        if s.last()->Send_1 is Apply {
            Some(s.len() - 1)
        } else {
            None
        }
    } else {
        open_ops(s.drop_last(), p)
    }
}

/// A queue with one effect more: folded into an open message where that
/// takes it, which stays where it stands, or put at the end.
pub open spec fn merged_with(s: Seq<EffectView>, e: EffectView) -> Seq<EffectView> {
    match e {
        EffectView::Send(p, MessageView::Payloads(blocks)) => match open_blocks(s, p) {
            Some(at) => s.update(at, EffectView::Send(p, MessageView::Payloads(s[at]->Send_1->Payloads_0 + blocks))),
            None => s.push(e),
        },
        EffectView::Send(p, MessageView::Apply { first_rseq, ops }) => match open_ops(s, p) {
            Some(at) => if ends_at(s[at], p, first_rseq as int) && first_rseq + ops.len() <= u64::MAX {
                s.update(
                    at,
                    EffectView::Send(
                        p,
                        MessageView::Apply { first_rseq: s[at]->Send_1->Apply_first_rseq, ops: s[at]->Send_1->Apply_ops + ops },
                    ),
                )
            } else {
                s.push(e)
            },
            None => s.push(e),
        },
        _ => s.push(e),
    }
}

/// A queue merged, effect by effect.
pub open spec fn merged(s: Seq<EffectView>) -> Seq<EffectView>
    decreases s.len(),
{
    if s.len() == 0 {
        Seq::empty()
    } else {
        merged_with(merged(s.drop_last()), s.last())
    }
}

proof fn lemma_open_blocks(s: Seq<EffectView>, p: NodeId)
    ensures
        open_blocks(s, p) matches Some(i) ==> 0 <= i < s.len() && is_blocks(s[i], p) && !bar_in(s, p, i, s.len() as int),
    decreases s.len(),
{
    if s.len() > 0 && !is_bar(s.last(), p) && !is_blocks(s.last(), p) {
        let rest = s.drop_last();
        lemma_open_blocks(rest, p);
        if let Some(i) = open_blocks(rest, p) {
            if bar_in(s, p, i, s.len() as int) {
                let k = choose|k: int| i < k < s.len() && is_bar(#[trigger] s[k], p);
                assert(k < rest.len());
                assert(is_bar(rest[k], p));
            }
        }
    }
}

proof fn lemma_open_ops(s: Seq<EffectView>, p: NodeId)
    ensures
        open_ops(s, p) matches Some(i) ==> 0 <= i < s.len() && is_to(s[i], p) && s[i]->Send_1 is Apply && quiet_in(s, p, i, s.len() as int),
    decreases s.len(),
{
    if s.len() > 0 && !is_to(s.last(), p) {
        let rest = s.drop_last();
        lemma_open_ops(rest, p);
        if let Some(i) = open_ops(rest, p) {
            assert forall|k: int| i < k < s.len() implies !is_to(#[trigger] s[k], p) by {
                if k < rest.len() {
                    assert(s[k] == rest[k]);
                }
            }
        }
    }
}

proof fn lemma_takes_blocks(s: Seq<EffectView>, p: NodeId, at: int)
    requires
        takes_blocks(s, p, at),
    ensures
        open_blocks(s, p) == Some(at),
    decreases s.len(),
{
    if at < s.len() - 1 {
        let rest = s.drop_last();
        assert(!stirs(s[s.len() - 1], p));
        assert forall|j: int| at < j < rest.len() implies !stirs(#[trigger] rest[j], p) by {
            assert(rest[j] == s[j]);
        }
        lemma_takes_blocks(rest, p, at);
    }
}

proof fn lemma_takes_ops(s: Seq<EffectView>, p: NodeId, at: int, next: u64)
    requires
        takes_ops(s, p, at, next),
    ensures
        open_ops(s, p) == Some(at),
    decreases s.len(),
{
    if at < s.len() - 1 {
        let rest = s.drop_last();
        assert(!is_to(s[s.len() - 1], p));
        assert forall|j: int| at < j < rest.len() implies !(#[trigger] rest[j] matches EffectView::Send(q, _) && q == p) by {
            assert(rest[j] == s[j]);
        }
        lemma_takes_ops(rest, p, at, next);
    }
}

/// A queue in which no two messages could be one is left as it is: merging
/// twice changes nothing more.
pub proof fn law_a_tight_queue_stays(s: Seq<EffectView>)
    requires
        tight(s),
    ensures
        merged(s) == s,
    decreases s.len(),
{
    if s.len() == 0 {
        assert(merged(s) =~= s);
    } else {
        let rest = s.drop_last();
        let e = s.last();
        let last = s.len() - 1;
        assert forall|p: NodeId, i: int, j: int| 0 <= i < j < rest.len() implies !(#[trigger] mergeable(rest, p, i, j)) by {
            assert(!mergeable(s, p, i, j));
            if is_blocks(rest[i], p) && is_blocks(rest[j], p) && !bar_in(rest, p, i, j) {
                assert(!bar_in(s, p, i, j)) by {
                    if bar_in(s, p, i, j) {
                        let k = choose|k: int| i < k < j && is_bar(#[trigger] s[k], p);
                        assert(is_bar(rest[k], p));
                    }
                }
            }
            if quiet_in(rest, p, i, j) {
                assert forall|k: int| i < k < j implies !is_to(#[trigger] s[k], p) by {
                    assert(rest[k] == s[k]);
                }
            }
        }
        law_a_tight_queue_stays(rest);
        assert(s =~= rest.push(e));
        match e {
            EffectView::Send(p, MessageView::Payloads(blocks)) => {
                lemma_open_blocks(rest, p);
                if let Some(i) = open_blocks(rest, p) {
                    assert(!bar_in(s, p, i, last)) by {
                        if bar_in(s, p, i, last) {
                            let k = choose|k: int| i < k < last && is_bar(#[trigger] s[k], p);
                            assert(is_bar(rest[k], p));
                        }
                    }
                    assert(mergeable(s, p, i, last));
                }
            },
            EffectView::Send(p, MessageView::Apply { first_rseq, ops }) => {
                lemma_open_ops(rest, p);
                if let Some(i) = open_ops(rest, p) {
                    if ends_at(rest[i], p, first_rseq as int) && first_rseq + ops.len() <= u64::MAX {
                        assert forall|k: int| i < k < last implies !is_to(#[trigger] s[k], p) by {
                            assert(rest[k] == s[k]);
                        }
                        assert(ends_at(s[i], p, first_rseq as int) && starts_at(s[last], p, first_rseq as int));
                        assert(mergeable(s, p, i, last));
                    }
                }
            },
            _ => {},
        }
    }
}

/// One effect more on both sides.
proof fn lemma_push(a: Seq<EffectView>, b: Seq<EffectView>, e: EffectView)
    requires
        coalesced(a, b),
    ensures
        coalesced(a.push(e), b.push(e)),
{
    assert(a.push(e).drop_last() =~= a);
    assert(b.push(e).drop_last() =~= b);
    assert forall|p: NodeId| #[trigger] same_stream(a.push(e), b.push(e), p) by {
        assert(same_stream(a, b, p));
    }
}

/// A message to `p` other than a batch of ops.
spec fn stirs(e: EffectView, p: NodeId) -> bool {
    e matches EffectView::Send(q, m) && q == p && !(m is Apply)
}

proof fn lemma_more_blocks(x: Seq<EffectView>, old_blocks: Seq<(u8, Seq<u8>)>, extra: Seq<(u8, Seq<u8>)>, y: Seq<EffectView>, p: NodeId, q: NodeId)
    requires
        forall|i: int| 0 <= i < y.len() ==> !stirs(#[trigger] y[i], p),
    ensures
        ({
            let s = x.push(EffectView::Send(p, MessageView::Payloads(old_blocks))) + y;
            let t = x.push(EffectView::Send(p, MessageView::Payloads(old_blocks + extra))) + y;
            &&& locals(t) == locals(s)
            &&& ops_to(t, q) == ops_to(s, q)
            &&& bars_to(t, q) == bars_to(s, q)
            &&& no_later(ahead(s, q), ahead(t, q))
            &&& blocks_to(t, q) == if q == p {
                blocks_to(s, q) + extra
            } else {
                blocks_to(s, q)
            }
        }),
    decreases y.len(),
{
    let e = EffectView::Send(p, MessageView::Payloads(old_blocks));
    let f = EffectView::Send(p, MessageView::Payloads(old_blocks + extra));
    let s = x.push(e) + y;
    let t = x.push(f) + y;
    if y.len() == 0 {
        assert(s =~= x.push(e));
        assert(t =~= x.push(f));
        assert(x.push(e).drop_last() =~= x);
        assert(x.push(f).drop_last() =~= x);
        if q == p {
            assert(blocks_to(t, q) =~= blocks_to(s, q) + extra);
        }
    } else {
        let z = y.drop_last();
        let l = y.last();
        assert(s.drop_last() =~= x.push(e) + z);
        assert(t.drop_last() =~= x.push(f) + z);
        assert(s.last() == l && t.last() == l);
        assert forall|i: int| 0 <= i < z.len() implies !stirs(#[trigger] z[i], p) by {
            assert(z[i] == y[i]);
        }
        assert(!stirs(y[y.len() - 1], p));
        lemma_more_blocks(x, old_blocks, extra, z, p, q);
        if q == p {
            assert(blocks_of(l, q) =~= Seq::empty());
            assert(blocks_to(t, q) =~= blocks_to(s, q) + extra);
        }
    }
}

proof fn lemma_more_ops(x: Seq<EffectView>, first: u64, old_ops: Seq<ReplOp>, extra: Seq<ReplOp>, y: Seq<EffectView>, p: NodeId, q: NodeId)
    requires
        forall|i: int| 0 <= i < y.len() ==> !(#[trigger] y[i] matches EffectView::Send(to, _) && to == p),
    ensures
        ({
            let s = x.push(EffectView::Send(p, MessageView::Apply { first_rseq: first, ops: old_ops })) + y;
            let t = x.push(EffectView::Send(p, MessageView::Apply { first_rseq: first, ops: old_ops + extra })) + y;
            &&& locals(t) == locals(s)
            &&& blocks_to(t, q) == blocks_to(s, q)
            &&& bars_to(t, q) == bars_to(s, q)
            &&& ops_to(t, q) == if q == p {
                ops_to(s, q) + Seq::new(extra.len(), |i: int| (first + old_ops.len() + i, extra[i]))
            } else {
                ops_to(s, q)
            }
            &&& ahead(t, q) == if q == p {
                ahead(s, q) + Seq::new(extra.len(), |i: int| blocks_to(s, q).len())
            } else {
                ahead(s, q)
            }
        }),
    decreases y.len(),
{
    let e = EffectView::Send(p, MessageView::Apply { first_rseq: first, ops: old_ops });
    let f = EffectView::Send(p, MessageView::Apply { first_rseq: first, ops: old_ops + extra });
    let s = x.push(e) + y;
    let t = x.push(f) + y;
    if y.len() == 0 {
        assert(s =~= x.push(e));
        assert(t =~= x.push(f));
        assert(x.push(e).drop_last() =~= x);
        assert(x.push(f).drop_last() =~= x);
        if q == p {
            assert(ops_to(t, q) =~= ops_to(s, q) + Seq::new(extra.len(), |i: int| (first + old_ops.len() + i, extra[i])));
            assert(blocks_to(s, q) =~= blocks_to(x, q));
            assert(ahead(t, q) =~= ahead(s, q) + Seq::new(extra.len(), |i: int| blocks_to(s, q).len()));
        } else {
            assert(ahead(t, q) =~= ahead(s, q));
        }
    } else {
        let z = y.drop_last();
        let l = y.last();
        assert(s.drop_last() =~= x.push(e) + z);
        assert(t.drop_last() =~= x.push(f) + z);
        assert(s.last() == l && t.last() == l);
        assert forall|i: int| 0 <= i < z.len() implies !(#[trigger] z[i] matches EffectView::Send(to, _) && to == p) by {
            assert(z[i] == y[i]);
        }
        assert(!(y[y.len() - 1] matches EffectView::Send(to, _) && to == p));
        lemma_more_ops(x, first, old_ops, extra, z, p, q);
        if q == p {
            assert(ops_of(l, q) =~= Seq::empty());
            assert(blocks_of(l, q) =~= Seq::empty());
            assert(blocks_to(s, q) =~= blocks_to(s.drop_last(), q));
            assert(ops_to(t, q) =~= ops_to(s, q) + Seq::new(extra.len(), |i: int| (first + old_ops.len() + i, extra[i])));
            assert(ahead(s, q) =~= ahead(s.drop_last(), q));
            assert(ahead(t, q) =~= ahead(s, q) + Seq::new(extra.len(), |i: int| blocks_to(s, q).len()));
        } else {
            assert(ahead(t, q) =~= ahead(s, q));
        }
    }
}

/// Every message that could still take something is somebody's window.
spec fn all_open(s: Seq<EffectView>, windows: Map<NodeId, Window>) -> bool {
    &&& forall|p: NodeId, i: int| 0 <= i < s.len() && is_blocks(#[trigger] s[i], p) && !(#[trigger] bar_in(s, p, i, s.len() as int)) ==> windows.contains_key(p)
        && windows[p].payloads == Some(i as usize)
    &&& forall|p: NodeId, i: int, next: int|
        0 <= i < s.len() && #[trigger] ends_at(s[i], p, next) && next <= u64::MAX && quiet_in(s, p, i, s.len() as int) ==> windows.contains_key(p)
            && windows[p].apply == Some((i as usize, next as u64))
}

spec fn same_window(windows: Map<NodeId, Window>, after: Map<NodeId, Window>, p: NodeId) -> bool {
    after.contains_key(p) == windows.contains_key(p) && (windows.contains_key(p) ==> after[p] == windows[p])
}

spec fn window_at(windows: Map<NodeId, Window>, p: NodeId) -> Window {
    if windows.contains_key(p) {
        windows[p]
    } else {
        Window { payloads: None, apply: None }
    }
}

proof fn lemma_between(s: Seq<EffectView>, e: EffectView, p: NodeId, i: int, j: int)
    requires
        0 <= i < j <= s.len(),
    ensures
        bar_in(s.push(e), p, i, j) == bar_in(s, p, i, j),
        quiet_in(s.push(e), p, i, j) == quiet_in(s, p, i, j),
{
    let t = s.push(e);
    if bar_in(s, p, i, j) {
        let k = choose|k: int| i < k < j && is_bar(#[trigger] s[k], p);
        assert(t[k] == s[k]);
    }
    if bar_in(t, p, i, j) {
        let k = choose|k: int| i < k < j && is_bar(#[trigger] t[k], p);
        assert(t[k] == s[k]);
    }
    if quiet_in(s, p, i, j) {
        assert forall|k: int| i < k < j implies !is_to(#[trigger] t[k], p) by {
            assert(t[k] == s[k]);
        }
    }
    if quiet_in(t, p, i, j) {
        assert forall|k: int| i < k < j implies !is_to(#[trigger] s[k], p) by {
            assert(t[k] == s[k]);
        }
    }
}

proof fn lemma_tight_push(s: Seq<EffectView>, windows: Map<NodeId, Window>, e: EffectView)
    requires
        s.len() <= usize::MAX,
        tight(s),
        all_open(s, windows),
        match e {
            EffectView::Send(p, MessageView::Payloads(_)) => window_at(windows, p).payloads is None,
            EffectView::Send(p, MessageView::Apply { first_rseq, ops }) => !(window_at(windows, p).apply matches Some(a) && a.1 == first_rseq
                && first_rseq + ops.len() <= u64::MAX),
            _ => true,
        },
    ensures
        tight(s.push(e)),
{
    let t = s.push(e);
    assert forall|p: NodeId, i: int, j: int| 0 <= i < j < t.len() implies !(#[trigger] mergeable(t, p, i, j)) by {
        lemma_between(s, e, p, i, j);
        if j < s.len() {
            assert(t[i] == s[i] && t[j] == s[j]);
            assert(!mergeable(s, p, i, j));
            if exists|next: int| #[trigger] ends_at(t[i], p, next) && starts_at(t[j], p, next) {
                let next = choose|next: int| #[trigger] ends_at(t[i], p, next) && starts_at(t[j], p, next);
                assert(ends_at(s[i], p, next) && starts_at(s[j], p, next));
            }
        } else {
            assert(t[i] == s[i] && t[j] == e);
            if is_blocks(s[i], p) && is_blocks(e, p) && !bar_in(s, p, i, j) {
                assert(windows[p].payloads == Some(i as usize));
            }
            if quiet_in(s, p, i, j) && exists|next: int| #[trigger] ends_at(t[i], p, next) && starts_at(t[j], p, next) {
                let next = choose|next: int| #[trigger] ends_at(t[i], p, next) && starts_at(t[j], p, next);
                assert(ends_at(s[i], p, next));
                assert(windows[p].apply == Some((i as usize, next as u64)));
            }
        }
    }
}

proof fn lemma_open_push(s: Seq<EffectView>, windows: Map<NodeId, Window>, after: Map<NodeId, Window>, e: EffectView)
    requires
        s.len() <= usize::MAX,
        all_open(s, windows),
        forall|q: NodeId| !is_to(e, q) ==> #[trigger] same_window(windows, after, q),
        match e {
            EffectView::Send(p, MessageView::Payloads(_)) => window_at(windows, p).payloads is None && after.contains_key(p) && after[p].payloads == Some(
                s.len() as usize,
            ),
            EffectView::Send(p, MessageView::Apply { first_rseq, ops }) => after.contains_key(p) && after[p].payloads == window_at(windows, p).payloads && (
            first_rseq + ops.len() <= u64::MAX ==> after[p].apply == Some((s.len() as usize, (first_rseq + ops.len()) as u64))),
            _ => true,
        },
    ensures
        all_open(s.push(e), after),
{
    let t = s.push(e);
    assert forall|p: NodeId, i: int| 0 <= i < t.len() && is_blocks(#[trigger] t[i], p) && !(#[trigger] bar_in(t, p, i, t.len() as int)) implies after.contains_key(p)
        && after[p].payloads == Some(i as usize) by {
        assert(!is_to(e, p) ==> same_window(windows, after, p));
        if i < s.len() {
            assert(t[i] == s[i]);
            lemma_between(s, e, p, i, s.len() as int);
            assert(!bar_in(t, p, i, s.len() as int)) by {
                if bar_in(t, p, i, s.len() as int) {
                    let k = choose|k: int| i < k < s.len() && is_bar(#[trigger] t[k], p);
                    assert(is_bar(t[k], p));
                }
            }
            assert(windows.contains_key(p) && windows[p].payloads == Some(i as usize));
            assert(!is_bar(e, p)) by {
                if is_bar(e, p) {
                    assert(t[s.len() as int] == e);
                    assert(bar_in(t, p, i, t.len() as int));
                }
            }
        }
    }
    assert forall|p: NodeId, i: int, next: int|
        0 <= i < t.len() && #[trigger] ends_at(t[i], p, next) && next <= u64::MAX && quiet_in(t, p, i, t.len() as int) implies after.contains_key(p) && after[p].apply
        == Some((i as usize, next as u64)) by {
        assert(!is_to(e, p) ==> same_window(windows, after, p));
        if i < s.len() {
            assert(t[i] == s[i]);
            lemma_between(s, e, p, i, s.len() as int);
            assert(t[s.len() as int] == e);
            assert(!is_to(e, p));
            assert(quiet_in(t, p, i, s.len() as int));
            assert(ends_at(s[i], p, next));
        }
    }
}

/// Folding into a message leaves what stands between places as it was.
proof fn lemma_fold_between(s: Seq<EffectView>, e: EffectView, to: NodeId, at: int, p: NodeId, i: int, j: int)
    requires
        0 <= at < s.len(),
        0 <= i < j <= s.len(),
        (is_blocks(s[at], to) && is_blocks(e, to)) || (is_to(s[at], to) && s[at]->Send_1 is Apply && is_to(e, to) && e->Send_1 is Apply),
    ensures
        bar_in(s.update(at, e), p, i, j) == bar_in(s, p, i, j),
        quiet_in(s.update(at, e), p, i, j) == quiet_in(s, p, i, j),
{
    let t = s.update(at, e);
    assert forall|k: int| 0 <= k < s.len() implies is_bar(#[trigger] t[k], p) == is_bar(s[k], p) && is_to(t[k], p) == is_to(s[k], p) by {}
    if bar_in(s, p, i, j) {
        let k = choose|k: int| i < k < j && is_bar(#[trigger] s[k], p);
        assert(is_bar(t[k], p));
    }
    if bar_in(t, p, i, j) {
        let k = choose|k: int| i < k < j && is_bar(#[trigger] t[k], p);
        assert(is_bar(s[k], p));
    }
    if quiet_in(s, p, i, j) {
        assert forall|k: int| i < k < j implies !is_to(#[trigger] t[k], p) by {
            assert(!is_to(s[k], p));
        }
    }
    if quiet_in(t, p, i, j) {
        assert forall|k: int| i < k < j implies !is_to(#[trigger] s[k], p) by {
            assert(!is_to(t[k], p));
        }
    }
}

proof fn lemma_blocks_fold_tight(s: Seq<EffectView>, windows: Map<NodeId, Window>, e: EffectView, to: NodeId, at: int)
    requires
        tight(s),
        all_open(s, windows),
        0 <= at < s.len(),
        is_blocks(s[at], to),
        is_blocks(e, to),
    ensures
        tight(s.update(at, e)),
        all_open(s.update(at, e), windows),
{
    let t = s.update(at, e);
    assert forall|p: NodeId, i: int, j: int| 0 <= i < j < t.len() implies !(#[trigger] mergeable(t, p, i, j)) by {
        lemma_fold_between(s, e, to, at, p, i, j);
        assert(!mergeable(s, p, i, j));
        if exists|next: int| #[trigger] ends_at(t[i], p, next) && starts_at(t[j], p, next) {
            let next = choose|next: int| #[trigger] ends_at(t[i], p, next) && starts_at(t[j], p, next);
            assert(ends_at(s[i], p, next) && starts_at(s[j], p, next));
        }
    }
    assert forall|p: NodeId, i: int| 0 <= i < t.len() && is_blocks(#[trigger] t[i], p) && !(#[trigger] bar_in(t, p, i, t.len() as int)) implies windows.contains_key(p)
        && windows[p].payloads == Some(i as usize) by {
        lemma_fold_between(s, e, to, at, p, i, s.len() as int);
        assert(is_blocks(s[i], p));
    }
    assert forall|p: NodeId, i: int, next: int|
        0 <= i < t.len() && #[trigger] ends_at(t[i], p, next) && next <= u64::MAX && quiet_in(t, p, i, t.len() as int) implies windows.contains_key(p)
        && windows[p].apply == Some((i as usize, next as u64)) by {
        lemma_fold_between(s, e, to, at, p, i, s.len() as int);
        assert(ends_at(s[i], p, next));
    }
}

proof fn lemma_ops_fold_tight(s: Seq<EffectView>, windows: Map<NodeId, Window>, after: Map<NodeId, Window>, e: EffectView, to: NodeId, at: int, next: u64)
    requires
        s.len() <= usize::MAX,
        tight(s),
        all_open(s, windows),
        takes_ops(s, to, at, next),
        is_to(e, to),
        e->Send_1 is Apply,
        e->Send_1->Apply_first_rseq == s[at]->Send_1->Apply_first_rseq,
        e->Send_1->Apply_ops.len() >= s[at]->Send_1->Apply_ops.len(),
        forall|q: NodeId| q != to ==> #[trigger] same_window(windows, after, q),
        after.contains_key(to),
        after[to].payloads == window_at(windows, to).payloads,
        ({
            let end = e->Send_1->Apply_first_rseq + e->Send_1->Apply_ops.len();
            end <= u64::MAX ==> after[to].apply == Some((at as usize, end as u64))
        }),
    ensures
        tight(s.update(at, e)),
        all_open(s.update(at, e), after),
{
    let t = s.update(at, e);
    assert(is_to(s[at], to) && s[at]->Send_1 is Apply);
    assert forall|p: NodeId, i: int, j: int| 0 <= i < j < t.len() implies !(#[trigger] mergeable(t, p, i, j)) by {
        lemma_fold_between(s, e, to, at, p, i, j);
        assert(!mergeable(s, p, i, j));
        if quiet_in(t, p, i, j) && exists|next: int| #[trigger] ends_at(t[i], p, next) && starts_at(t[j], p, next) {
            let end = choose|end: int| #[trigger] ends_at(t[i], p, end) && starts_at(t[j], p, end);
            if i == at {
                assert(!(s[j] matches EffectView::Send(q, _) && q == to));
            } else {
                assert(ends_at(s[i], p, end));
                assert(starts_at(s[j], p, end));
            }
        }
    }
    assert forall|p: NodeId, i: int| 0 <= i < t.len() && is_blocks(#[trigger] t[i], p) && !(#[trigger] bar_in(t, p, i, t.len() as int)) implies after.contains_key(p)
        && after[p].payloads == Some(i as usize) by {
        lemma_fold_between(s, e, to, at, p, i, s.len() as int);
        assert(is_blocks(s[i], p));
        assert(windows.contains_key(p) && windows[p].payloads == Some(i as usize));
        assert(p != to ==> same_window(windows, after, p));
    }
    assert forall|p: NodeId, i: int, end: int|
        0 <= i < t.len() && #[trigger] ends_at(t[i], p, end) && end <= u64::MAX && quiet_in(t, p, i, t.len() as int) implies after.contains_key(p) && after[p].apply
        == Some((i as usize, end as u64)) by {
        lemma_fold_between(s, e, to, at, p, i, s.len() as int);
        assert(p != to ==> same_window(windows, after, p));
        if i != at {
            assert(ends_at(s[i], p, end));
            if p == to {
                if i < at {
                    assert(is_to(s[at], to));
                } else {
                    assert(!(s[i] matches EffectView::Send(q, _) && q == to));
                }
            }
        }
    }
}

/// Where a peer's open merge window sits in the output.
#[derive(Clone, Copy)]
struct Window {
    payloads: Option<usize>,
    apply: Option<(usize, u64)>,
}

/// The payloads message at `at` may still take blocks.
spec fn takes_blocks(out: Seq<EffectView>, p: NodeId, at: int) -> bool {
    &&& 0 <= at < out.len()
    &&& out[at] matches EffectView::Send(q, MessageView::Payloads(_)) && q == p
    &&& forall|j: int| at < j < out.len() ==> !stirs(#[trigger] out[j], p)
}

/// The batch of ops at `at` may still take the op numbered `next`.
spec fn takes_ops(out: Seq<EffectView>, p: NodeId, at: int, next: u64) -> bool {
    &&& 0 <= at < out.len()
    &&& out[at] matches EffectView::Send(q, MessageView::Apply { first_rseq, ops }) && q == p && first_rseq + ops.len() == next
    &&& forall|j: int| at < j < out.len() ==> !(#[trigger] out[j] matches EffectView::Send(q, _) && q == p)
}

spec fn window_ok(out: Seq<EffectView>, p: NodeId, w: Window) -> bool {
    &&& w.payloads matches Some(at) ==> takes_blocks(out, p, at as int)
    &&& w.apply matches Some(a) ==> takes_ops(out, p, a.0 as int, a.1)
}

spec fn windows_ok(out: Seq<EffectView>, windows: Map<NodeId, Window>) -> bool {
    forall|p: NodeId| #[trigger] windows.contains_key(p) ==> window_ok(out, p, windows[p])
}

/// Adding an effect that goes to no one but `p` leaves the others' windows.
proof fn lemma_windows_push(out: Seq<EffectView>, windows: Map<NodeId, Window>, e: EffectView, p: NodeId, q: NodeId)
    requires
        windows_ok(out, windows),
        windows.contains_key(q),
        q != p,
        e matches EffectView::Send(to, _) ==> to == p,
    ensures
        window_ok(out.push(e), q, windows[q]),
{
    let w = windows[q];
    assert(window_ok(out, q, w));
    let s = out.push(e);
    if let Some(at) = w.payloads {
        assert forall|j: int| at < j < s.len() implies !stirs(#[trigger] s[j], q) by {
            if j < out.len() {
                assert(s[j] == out[j]);
            }
        }
        assert(s[at as int] == out[at as int]);
    }
    if let Some(a) = w.apply {
        assert forall|j: int| a.0 < j < s.len() implies !(#[trigger] s[j] matches EffectView::Send(to, _) && to == q) by {
            if j < out.len() {
                assert(s[j] == out[j]);
            }
        }
        assert(s[a.0 as int] == out[a.0 as int]);
    }
}

/// So does replacing a message to `p` by another of its kind, at its place.
proof fn lemma_windows_update(out: Seq<EffectView>, windows: Map<NodeId, Window>, e: EffectView, p: NodeId, at: int, q: NodeId)
    requires
        windows_ok(out, windows),
        windows.contains_key(q),
        q != p,
        0 <= at < out.len(),
        out[at] matches EffectView::Send(to, _) && to == p,
        e matches EffectView::Send(to, _) && to == p,
    ensures
        window_ok(out.update(at, e), q, windows[q]),
{
    let w = windows[q];
    assert(window_ok(out, q, w));
    let s = out.update(at, e);
    if let Some(k) = w.payloads {
        assert forall|j: int| k < j < s.len() implies !stirs(#[trigger] s[j], q) by {
            if j != at {
                assert(s[j] == out[j]);
            }
        }
        assert(s[k as int] == out[k as int]);
    }
    if let Some(a) = w.apply {
        assert forall|j: int| a.0 < j < s.len() implies !(#[trigger] s[j] matches EffectView::Send(to, _) && to == q) by {
            if j != at {
                assert(s[j] == out[j]);
            }
        }
        assert(s[a.0 as int] == out[a.0 as int]);
    }
}

proof fn lemma_merged_blocks(a: Seq<EffectView>, b: Seq<EffectView>, p: NodeId, at: int, extra: Seq<(u8, Seq<u8>)>)
    requires
        coalesced(a, b),
        takes_blocks(b, p, at),
    ensures
        ({
            let held = b[at]->Send_1->Payloads_0;
            coalesced(
                a.push(EffectView::Send(p, MessageView::Payloads(extra))),
                b.update(at, EffectView::Send(p, MessageView::Payloads(held + extra))),
            )
        }),
{
    let held = b[at]->Send_1->Payloads_0;
    let e = EffectView::Send(p, MessageView::Payloads(extra));
    let s = a.push(e);
    let t = b.update(at, EffectView::Send(p, MessageView::Payloads(held + extra)));
    let x = b.take(at);
    let y = b.skip(at + 1);
    assert(a.push(e).drop_last() =~= a);
    assert(b =~= x.push(EffectView::Send(p, MessageView::Payloads(held))) + y);
    assert(t =~= x.push(EffectView::Send(p, MessageView::Payloads(held + extra))) + y);
    assert forall|i: int| 0 <= i < y.len() implies !stirs(#[trigger] y[i], p) by {
        assert(y[i] == b[at + 1 + i]);
    }
    lemma_more_blocks(x, held, extra, y, p, p);
    assert forall|q: NodeId| #[trigger] same_stream(s, t, q) by {
        assert(same_stream(a, b, q));
        lemma_more_blocks(x, held, extra, y, p, q);
        assert(ops_of(e, q) =~= Seq::empty());
        assert(ops_to(s, q) =~= ops_to(a, q));
        assert(ahead(s, q) =~= ahead(a, q));
        if q != p {
            assert(blocks_of(e, q) =~= Seq::empty());
            assert(blocks_to(s, q) =~= blocks_to(a, q));
        }
        let before = ahead(a, q);
        let mid = ahead(b, q);
        let after = ahead(t, q);
        assert forall|i: int| 0 <= i < before.len() implies #[trigger] before[i] <= #[trigger] after[i] by {
            assert(before[i] <= mid[i]);
            assert(mid[i] <= after[i]);
        }
    }
}

proof fn lemma_merged_ops(a: Seq<EffectView>, b: Seq<EffectView>, p: NodeId, at: int, next: u64, extra: Seq<ReplOp>)
    requires
        coalesced(a, b),
        takes_ops(b, p, at, next),
    ensures
        ({
            let first = b[at]->Send_1->Apply_first_rseq;
            let held = b[at]->Send_1->Apply_ops;
            coalesced(
                a.push(EffectView::Send(p, MessageView::Apply { first_rseq: next, ops: extra })),
                b.update(at, EffectView::Send(p, MessageView::Apply { first_rseq: first, ops: held + extra })),
            )
        }),
{
    let first = b[at]->Send_1->Apply_first_rseq;
    let held = b[at]->Send_1->Apply_ops;
    let e = EffectView::Send(p, MessageView::Apply { first_rseq: next, ops: extra });
    let s = a.push(e);
    let t = b.update(at, EffectView::Send(p, MessageView::Apply { first_rseq: first, ops: held + extra }));
    let x = b.take(at);
    let y = b.skip(at + 1);
    assert(a.push(e).drop_last() =~= a);
    assert(b =~= x.push(EffectView::Send(p, MessageView::Apply { first_rseq: first, ops: held })) + y);
    assert(t =~= x.push(EffectView::Send(p, MessageView::Apply { first_rseq: first, ops: held + extra })) + y);
    assert forall|i: int| 0 <= i < y.len() implies !(#[trigger] y[i] matches EffectView::Send(to, _) && to == p) by {
        assert(y[i] == b[at + 1 + i]);
    }
    lemma_more_ops(x, first, held, extra, y, p, p);
    assert forall|q: NodeId| #[trigger] same_stream(s, t, q) by {
        assert(same_stream(a, b, q));
        lemma_more_ops(x, first, held, extra, y, p, q);
        assert(blocks_of(e, q) =~= Seq::empty());
        assert(blocks_to(s, q) =~= blocks_to(a, q));
        if q == p {
            assert(ops_of(e, q) =~= Seq::new(extra.len(), |i: int| (first + held.len() + i, extra[i])));
            assert(ops_to(s, q) =~= ops_to(t, q));
            let before = ahead(s, q);
            let after = ahead(t, q);
            assert(before.len() == ahead(a, q).len() + extra.len());
            assert forall|i: int| 0 <= i < before.len() implies #[trigger] before[i] <= #[trigger] after[i] by {
                let n = ahead(a, q).len();
                if i < n {
                    assert(before[i] == ahead(a, q)[i]);
                    assert(after[i] == ahead(b, q)[i]);
                } else {
                    assert(before[i] == blocks_to(a, q).len());
                    assert(after[i] == blocks_to(b, q).len());
                }
            }
        } else {
            assert(ops_of(e, q) =~= Seq::empty());
            assert(ops_to(s, q) =~= ops_to(a, q));
            assert(ahead(s, q) =~= ahead(a, q));
        }
    }
}

fn window_of(windows: &SortedMap<u8, Window>, p: NodeId) -> (w: Window)
    requires
        windows.wf(),
    ensures
        w == if windows@.contains_key(p) {
            windows@[p]
        } else {
            Window { payloads: None, apply: None }
        },
{
    match windows.get(&p) {
        Some(w) => w,
        None => Window { payloads: None, apply: None },
    }
}

/// Puts an effect at the end of the output.
fn put(out: &mut Vec<Effect>, effect: Effect)
    ensures
        final(out)@ == old(out)@.push(effect),
        effects_view(final(out)@) == effects_view(old(out)@).push(effect@),
{
    let ghost e = effect;
    out.push(effect);
    assert(effects_view(out@) =~= effects_view(old(out)@).push(e@));
}

/// Folds blocks into the payloads message at `at`.
fn fold_blocks(out: &mut Vec<Effect>, p: NodeId, at: usize, blocks: Vec<(u8, Vec<u8>)>)
    requires
        takes_blocks(effects_view(old(out)@), p, at as int),
    ensures
        ({
            let was = effects_view(old(out)@);
            effects_view(final(out)@) == was.update(
                at as int,
                EffectView::Send(p, MessageView::Payloads(was[at as int]->Send_1->Payloads_0 + blocks_view(blocks@))),
            )
        }),
{
    let ghost was = effects_view(old(out)@);
    let ghost extra = blocks_view(blocks@);
    let mut more = blocks;
    assert(was[at as int] == out@[at as int]@);
    match &mut out[at] {
        Effect::Send(_, PeerMessage::Payloads(open)) => {
            let ghost held = open@;
            open.append(&mut more);
            assert(blocks_view(open@) =~= blocks_view(held) + extra);
        },
        _ => {},
    }
    assert(effects_view(out@) =~= was.update(at as int, EffectView::Send(p, MessageView::Payloads(was[at as int]->Send_1->Payloads_0 + extra))));
}

/// Folds ops into the batch at `at`.
fn fold_ops(out: &mut Vec<Effect>, p: NodeId, at: usize, next: u64, ops: Vec<ReplOp>)
    requires
        takes_ops(effects_view(old(out)@), p, at as int, next),
    ensures
        ({
            let was = effects_view(old(out)@);
            effects_view(final(out)@) == was.update(
                at as int,
                EffectView::Send(
                    p,
                    MessageView::Apply { first_rseq: was[at as int]->Send_1->Apply_first_rseq, ops: was[at as int]->Send_1->Apply_ops + ops@ },
                ),
            )
        }),
{
    let ghost was = effects_view(old(out)@);
    let ghost extra = ops@;
    let mut more = ops;
    assert(was[at as int] == out@[at as int]@);
    match &mut out[at] {
        Effect::Send(_, PeerMessage::Apply { first_rseq: _, ops: open }) => {
            open.append(&mut more);
        },
        _ => {},
    }
    assert(effects_view(out@) =~= was.update(
        at as int,
        EffectView::Send(p, MessageView::Apply { first_rseq: was[at as int]->Send_1->Apply_first_rseq, ops: was[at as int]->Send_1->Apply_ops + extra }),
    ));
}

/// Merges a queue into as few messages as the streams' meaning allows.
#[verifier::rlimit(60)]
pub fn coalesce(effects: Vec<Effect>) -> (out: Vec<Effect>)
    ensures
        effects_view(out@) == merged(effects_view(effects@)),
        coalesced(effects_view(effects@), effects_view(out@)),
        tight(effects_view(out@)),
{
    let ghost all = effects@;
    let ghost seen = effects_view(effects@);
    let mut effects = effects;
    let mut rest: Vec<Effect> = Vec::new();
    while effects.len() > 0
        invariant
            effects@.len() + rest@.len() == all.len(),
            effects@ == all.take(effects@.len() as int),
            forall|j: int| 0 <= j < rest@.len() ==> #[trigger] rest@[j] == all[all.len() - 1 - j],
        decreases effects@.len(),
    {
        let ghost was = effects@;
        if let Some(effect) = effects.pop() {
            assert(effect == all[was.len() - 1]);
            rest.push(effect);
            assert(effects@ =~= all.take(effects@.len() as int));
        }
    }
    let mut out: Vec<Effect> = Vec::new();
    let mut windows: SortedMap<u8, Window> = SortedMap::new();
    let ghost n: nat = 0;
    proof {
        assert(effects_view(out@) =~= Seq::empty());
        assert(seen.take(0) =~= Seq::empty());
        assert forall|p: NodeId| #[trigger] same_stream(seen.take(0), effects_view(out@), p) by {}
    }
    while rest.len() > 0
        invariant
            windows.wf(),
            n + rest@.len() == all.len(),
            seen == effects_view(all),
            forall|j: int| 0 <= j < rest@.len() ==> #[trigger] rest@[j] == all[all.len() - 1 - j],
            effects_view(out@) == merged(seen.take(n as int)),
            coalesced(seen.take(n as int), effects_view(out@)),
            windows_ok(effects_view(out@), windows@),
            tight(effects_view(out@)),
            all_open(effects_view(out@), windows@),
        decreases rest@.len(),
    {
        let ghost from = effects_view(out@);
        let ghost held = windows@;
        let room: usize = out.len();
        let effect = match rest.pop() {
            Some(effect) => effect,
            None => {
                return out;
            },
        };
        let ghost e = effect@;
        proof {
            assert(effect == all[n as int]);
            assert(seen[n as int] == e);
            assert(seen.take(n as int + 1) =~= seen.take(n as int).push(e));
            lemma_push(seen.take(n as int), from, e);
            assert(from.len() == out@.len());
            assert(seen.take(n as int + 1).drop_last() =~= seen.take(n as int));
            assert(merged(seen.take(n as int + 1)) == merged_with(from, e));
        }
        match effect {
            Effect::Send(peer, PeerMessage::Payloads(blocks)) => {
                let window = window_of(&windows, peer);
                match window.payloads {
                    Some(at) => {
                        proof {
                            assert(window_ok(from, peer, window));
                            lemma_takes_blocks(from, peer, at as int);
                            lemma_merged_blocks(seen.take(n as int), from, peer, at as int, blocks_view(blocks@));
                        }
                        let ghost joined = EffectView::Send(peer, MessageView::Payloads(from[at as int]->Send_1->Payloads_0 + blocks_view(blocks@)));
                        fold_blocks(&mut out, peer, at, blocks);
                        proof {
                            let now = effects_view(out@);
                            assert(now == from.update(at as int, joined));
                            lemma_blocks_fold_tight(from, windows@, joined, peer, at as int);
                            assert forall|q: NodeId| #[trigger] windows@.contains_key(q) implies window_ok(now, q, windows@[q]) by {
                                if q != peer {
                                    lemma_windows_update(from, windows@, joined, peer, at as int, q);
                                } else {
                                    assert(window_ok(from, q, windows@[q]));
                                    lemma_window_refold(from, peer, windows@[q], at as int, joined);
                                }
                            }
                        }
                    },
                    None => {
                        let at: usize = out.len();
                        put(&mut out, Effect::Send(peer, PeerMessage::Payloads(blocks)));
                        // Ops emitted before this point must not take up any
                        // that follow it: those may reference these blocks.
                        windows.insert(peer, Window { payloads: Some(at), apply: None });
                        proof {
                            let now = effects_view(out@);
                            assert(now == from.push(e));
                            lemma_open_blocks(from, peer);
                            assert(open_blocks(from, peer) is None);
                            assert(now[at as int] == e);
                            assert(takes_blocks(now, peer, at as int));
                            lemma_tight_push(from, held, e);
                            lemma_open_push(from, held, windows@, e);
                            assert forall|q: NodeId| #[trigger] windows@.contains_key(q) implies window_ok(now, q, windows@[q]) by {
                                if q != peer {
                                    assert(held.contains_key(q));
                                    lemma_windows_push(from, held, e, peer, q);
                                }
                            }
                        }
                    },
                }
            },
            Effect::Send(peer, PeerMessage::Apply { first_rseq, ops }) => {
                let window = window_of(&windows, peer);
                let count: u64 = ops.len() as u64;
                let dense: bool = match window.apply {
                    Some((_, next)) => next == first_rseq && count <= u64::MAX - next,
                    None => false,
                };
                let at: usize = match window.apply {
                    Some((at, _)) => at,
                    None => 0,
                };
                if dense {
                    proof {
                        assert(window_ok(from, peer, window));
                        lemma_takes_ops(from, peer, at as int, first_rseq);
                        lemma_merged_ops(seen.take(n as int), from, peer, at as int, first_rseq, ops@);
                    }
                    let ghost joined = EffectView::Send(
                        peer,
                        MessageView::Apply { first_rseq: from[at as int]->Send_1->Apply_first_rseq, ops: from[at as int]->Send_1->Apply_ops + ops@ },
                    );
                    fold_ops(&mut out, peer, at, first_rseq, ops);
                    windows.insert(peer, Window { payloads: window.payloads, apply: Some((at, first_rseq + count)) });
                    proof {
                        let now = effects_view(out@);
                        assert(now == from.update(at as int, joined));
                        lemma_ops_fold_tight(from, held, windows@, joined, peer, at as int, first_rseq);
                        assert forall|q: NodeId| #[trigger] windows@.contains_key(q) implies window_ok(now, q, windows@[q]) by {
                            if q != peer {
                                assert(held.contains_key(q));
                                lemma_windows_update(from, held, joined, peer, at as int, q);
                            } else {
                                lemma_window_more_ops(from, peer, window, at as int, joined, first_rseq, (first_rseq + count) as u64);
                            }
                        }
                    }
                } else {
                    // A gap, or nothing open: this message starts its own
                    // window.
                    let here: usize = out.len();
                    put(&mut out, Effect::Send(peer, PeerMessage::Apply { first_rseq, ops }));
                    let apply: Option<(usize, u64)> = if count <= u64::MAX - first_rseq {
                        Some((here, first_rseq + count))
                    } else {
                        None
                    };
                    windows.insert(peer, Window { payloads: window.payloads, apply });
                    proof {
                        let now = effects_view(out@);
                        assert(now == from.push(e));
                        lemma_open_ops(from, peer);
                        if let Some(i) = open_ops(from, peer) {
                            assert(!(ends_at(from[i], peer, first_rseq as int) && first_rseq + count <= u64::MAX)) by {
                                if ends_at(from[i], peer, first_rseq as int) {
                                    assert(held.contains_key(peer) && held[peer].apply == Some((i as usize, first_rseq)));
                                }
                            }
                        }
                        assert(now[here as int] == e);
                        lemma_tight_push(from, held, e);
                        lemma_open_push(from, held, windows@, e);
                        assert(window_ok(from, peer, window));
                        if let Some(k) = window.payloads {
                            assert forall|j: int| k < j < now.len() implies !stirs(#[trigger] now[j], peer) by {
                                if j < from.len() {
                                    assert(now[j] == from[j]);
                                }
                            }
                            assert(now[k as int] == from[k as int]);
                            assert(takes_blocks(now, peer, k as int));
                        }
                        assert forall|q: NodeId| #[trigger] windows@.contains_key(q) implies window_ok(now, q, windows@[q]) by {
                            if q != peer {
                                assert(held.contains_key(q));
                                lemma_windows_push(from, held, e, peer, q);
                            }
                        }
                    }
                }
            },
            Effect::Send(peer, other) => {
                // A barrier for this peer.
                windows.remove(&peer);
                put(&mut out, Effect::Send(peer, other));
                proof {
                    let now = effects_view(out@);
                    lemma_tight_push(from, held, e);
                    lemma_open_push(from, held, windows@, e);
                    assert forall|q: NodeId| #[trigger] windows@.contains_key(q) implies window_ok(now, q, windows@[q]) by {
                        assert(held.contains_key(q) && q != peer);
                        lemma_windows_push(from, held, e, peer, q);
                    }
                }
            },
            local => {
                put(&mut out, local);
                proof {
                    let now = effects_view(out@);
                    lemma_tight_push(from, held, e);
                    lemma_open_push(from, held, windows@, e);
                    assert forall|q: NodeId| #[trigger] windows@.contains_key(q) implies window_ok(now, q, windows@[q]) by {
                        let p: NodeId = if q == 0 { 1 } else { 0 };
                        lemma_windows_push(from, held, e, p, q);
                    }
                }
            },
        }
        proof {
            n = n + 1;
        }
    }
    assert(seen.take(n as int) =~= seen);
    out
}

proof fn lemma_window_refold(out: Seq<EffectView>, p: NodeId, w: Window, at: int, e: EffectView)
    requires
        window_ok(out, p, w),
        w.payloads == Some(at as usize),
        0 <= at <= usize::MAX,
        takes_blocks(out, p, at),
        e matches EffectView::Send(q, MessageView::Payloads(_)) && q == p,
    ensures
        window_ok(out.update(at, e), p, w),
{
    let s = out.update(at, e);
    assert forall|j: int| at < j < s.len() implies !stirs(#[trigger] s[j], p) by {
        assert(s[j] == out[j]);
    }
    if let Some(a) = w.apply {
        assert(a.0 != at);
        assert(a.0 > at) by {
            if a.0 < at {
                assert(!(out[at] matches EffectView::Send(q, _) && q == p));
            }
        }
        assert forall|j: int| a.0 < j < s.len() implies !(#[trigger] s[j] matches EffectView::Send(q, _) && q == p) by {
            assert(s[j] == out[j]);
        }
        assert(s[a.0 as int] == out[a.0 as int]);
    }
}

proof fn lemma_window_more_ops(out: Seq<EffectView>, p: NodeId, w: Window, at: int, e: EffectView, next: u64, after: u64)
    requires
        window_ok(out, p, w),
        takes_ops(out, p, at, next),
        0 <= at <= usize::MAX,
        e matches EffectView::Send(q, MessageView::Apply { first_rseq, ops }) && q == p && first_rseq + ops.len() == after,
    ensures
        window_ok(out.update(at, e), p, Window { payloads: w.payloads, apply: Some((at as usize, after)) }),
{
    let s = out.update(at, e);
    assert forall|j: int| at < j < s.len() implies !(#[trigger] s[j] matches EffectView::Send(q, _) && q == p) by {
        assert(s[j] == out[j]);
    }
    if let Some(k) = w.payloads {
        assert(k != at);
        assert forall|j: int| k < j < s.len() implies !stirs(#[trigger] s[j], p) by {
            if j != at {
                assert(s[j] == out[j]);
            }
        }
        assert(s[k as int] == out[k as int]);
    }
}

impl<D: Disk> ReplNode<D> {
    /// Takes what the node wants done, merged.
    pub fn take_effects(&mut self) -> (r: Vec<Effect>)
        requires
            old(self).inv(),
        ensures
            final(self).inv(),
            final(self).engine() == old(self).engine(),
            final(self)@ == (NodeView { queue: Seq::empty(), ..old(self)@ }),
            effects_view(r@) == merged(old(self)@.queue),
            coalesced(old(self)@.queue, effects_view(r@)),
            tight(effects_view(r@)),
    {
        let mut queue: Vec<Effect> = Vec::new();
        core::mem::swap(&mut queue, &mut self.effects);
        assert(self@.queue =~= Seq::empty());
        coalesce(queue)
    }
}

/// A block that was ahead of an op is still ahead of it when the messages
/// have been merged.
pub proof fn law_no_op_overtakes_its_block(a: Seq<EffectView>, b: Seq<EffectView>, p: NodeId, i: int)
    requires
        coalesced(a, b),
        0 <= i < ops_to(a, p).len(),
        ahead(a, p).len() == ops_to(a, p).len(),
    ensures
        ops_to(b, p)[i] == ops_to(a, p)[i],
        ahead(b, p)[i] >= ahead(a, p)[i],
{
    assert(same_stream(a, b, p));
    assert(ahead(a, p)[i] <= ahead(b, p)[i]);
}

} // verus!
