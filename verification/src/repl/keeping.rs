//! What is merged on its way out is all still there.

use super::coalesce::{ends_at, merged, merged_with, open_blocks, open_ops};
use super::wire::{EffectView, ReplOp};
use crate::slice::NodeId;
use vstd::prelude::*;

verus! {

/// An effect that carries neither operations nor blocks.
pub open spec fn plain(e: EffectView) -> bool {
    !(e is Send && (e->Send_1 is Apply || e->Send_1 is Payloads))
}

/// A list of effects sends a peer an operation, numbered so.
pub open spec fn sends_op(s: Seq<EffectView>, p: NodeId, number: int, op: ReplOp) -> bool {
    exists|i: int, j: int|
        0 <= i < s.len() && s[i] is Send && s[i]->Send_0 == p && s[i]->Send_1 is Apply && 0 <= j < s[i]->Send_1->Apply_ops.len() && #[trigger] s[i]->Send_1->Apply_ops[j] == op
            && s[i]->Send_1->Apply_first_rseq + j == number
}

/// A list of effects sends a peer a block.
pub open spec fn sends_block(s: Seq<EffectView>, p: NodeId, block: (u8, Seq<u8>)) -> bool {
    exists|i: int, j: int|
        0 <= i < s.len() && s[i] is Send && s[i]->Send_0 == p && s[i]->Send_1 is Payloads && 0 <= j < s[i]->Send_1->Payloads_0.len() && #[trigger] s[i]->Send_1->Payloads_0[j]
            == block
}

proof fn lemma_open_blocks(s: Seq<EffectView>, p: NodeId)
    ensures
        open_blocks(s, p) matches Some(at) ==> 0 <= at < s.len() && s[at] is Send && s[at]->Send_0 == p && s[at]->Send_1 is Payloads,
    decreases s.len(),
{
    if s.len() > 0 {
        lemma_open_blocks(s.drop_last(), p);
    }
}

proof fn lemma_open_ops(s: Seq<EffectView>, p: NodeId)
    ensures
        open_ops(s, p) matches Some(at) ==> 0 <= at < s.len() && s[at] is Send && s[at]->Send_0 == p && s[at]->Send_1 is Apply,
    decreases s.len(),
{
    if s.len() > 0 {
        lemma_open_ops(s.drop_last(), p);
    }
}

proof fn lemma_merged_with(s: Seq<EffectView>, e: EffectView, x: EffectView, p: NodeId, number: int, op: ReplOp, block: (u8, Seq<u8>))
    ensures
        plain(x) && (s.contains(x) || x == e) ==> merged_with(s, e).contains(x),
        sends_op(s, p, number, op) || sends_op(seq![e], p, number, op) ==> sends_op(merged_with(s, e), p, number, op),
        sends_block(s, p, block) || sends_block(seq![e], p, block) ==> sends_block(merged_with(s, e), p, block),
{
    let t = merged_with(s, e);
    if e is Send {
        lemma_open_blocks(s, e->Send_0);
        lemma_open_ops(s, e->Send_0);
    }
    if plain(x) && s.contains(x) {
        let i = choose|i: int| 0 <= i < s.len() && s[i] == x;
        assert(t[i] == x);
    }
    if plain(x) && x == e {
        assert(t.last() == x);
    }
    if sends_op(s, p, number, op) {
        let (i, j) = choose|i: int, j: int|
            0 <= i < s.len() && s[i] is Send && s[i]->Send_0 == p && s[i]->Send_1 is Apply && 0 <= j < s[i]->Send_1->Apply_ops.len() && #[trigger] s[i]->Send_1->Apply_ops[j]
                == op && s[i]->Send_1->Apply_first_rseq + j == number;
        assert(t[i]->Send_1->Apply_ops[j] == op);
    }
    if sends_op(seq![e], p, number, op) {
        let one = seq![e];
        let (i, j) = choose|i: int, j: int|
            0 <= i < one.len() && one[i] is Send && one[i]->Send_0 == p && one[i]->Send_1 is Apply && 0 <= j < one[i]->Send_1->Apply_ops.len()
                && #[trigger] one[i]->Send_1->Apply_ops[j] == op && one[i]->Send_1->Apply_first_rseq + j == number;
        assert(one[i] == e);
        let first = e->Send_1->Apply_first_rseq;
        let ops = e->Send_1->Apply_ops;
        match open_ops(s, p) {
            Some(at) => if ends_at(s[at], p, first as int) && first + ops.len() <= u64::MAX {
                let was = s[at]->Send_1->Apply_ops;
                assert(t[at]->Send_1->Apply_ops == was + ops);
                assert(t[at]->Send_1->Apply_ops[was.len() + j] == op);
            } else {
                assert(t[s.len() as int]->Send_1->Apply_ops[j] == op);
            },
            None => {
                assert(t[s.len() as int]->Send_1->Apply_ops[j] == op);
            },
        }
    }
    if sends_block(s, p, block) {
        let (i, j) = choose|i: int, j: int|
            0 <= i < s.len() && s[i] is Send && s[i]->Send_0 == p && s[i]->Send_1 is Payloads && 0 <= j < s[i]->Send_1->Payloads_0.len()
                && #[trigger] s[i]->Send_1->Payloads_0[j] == block;
        assert(t[i]->Send_1->Payloads_0[j] == block);
    }
    if sends_block(seq![e], p, block) {
        let one = seq![e];
        let (i, j) = choose|i: int, j: int|
            0 <= i < one.len() && one[i] is Send && one[i]->Send_0 == p && one[i]->Send_1 is Payloads && 0 <= j < one[i]->Send_1->Payloads_0.len()
                && #[trigger] one[i]->Send_1->Payloads_0[j] == block;
        assert(one[i] == e);
        let blocks = e->Send_1->Payloads_0;
        match open_blocks(s, p) {
            Some(at) => {
                let was = s[at]->Send_1->Payloads_0;
                assert(t[at]->Send_1->Payloads_0 == was + blocks);
                assert(t[at]->Send_1->Payloads_0[was.len() + j] == block);
            },
            None => {
                assert(t[s.len() as int]->Send_1->Payloads_0[j] == block);
            },
        }
    }
}

/// Merging loses nothing: every effect that carries neither operations nor
/// blocks is still there, every operation is still sent to its peer under its
/// number, and every block is still sent to its peer.
pub proof fn law_merging_loses_nothing(s: Seq<EffectView>, x: EffectView, p: NodeId, number: int, op: ReplOp, block: (u8, Seq<u8>))
    ensures
        plain(x) && s.contains(x) ==> merged(s).contains(x),
        sends_op(s, p, number, op) ==> sends_op(merged(s), p, number, op),
        sends_block(s, p, block) ==> sends_block(merged(s), p, block),
    decreases s.len(),
{
    if s.len() > 0 {
        let front = s.drop_last();
        let e = s.last();
        law_merging_loses_nothing(front, x, p, number, op, block);
        lemma_merged_with(merged(front), e, x, p, number, op, block);
        if s.contains(x) && x != e {
            let i = choose|i: int| 0 <= i < s.len() && s[i] == x;
            assert(front[i] == x);
        }
        if sends_op(s, p, number, op) {
            let (i, j) = choose|i: int, j: int|
                0 <= i < s.len() && s[i] is Send && s[i]->Send_0 == p && s[i]->Send_1 is Apply && 0 <= j < s[i]->Send_1->Apply_ops.len()
                    && #[trigger] s[i]->Send_1->Apply_ops[j] == op && s[i]->Send_1->Apply_first_rseq + j == number;
            if i < front.len() {
                assert(front[i]->Send_1->Apply_ops[j] == op);
            } else {
                assert(seq![e][0]->Send_1->Apply_ops[j] == op);
            }
        }
        if sends_block(s, p, block) {
            let (i, j) = choose|i: int, j: int|
                0 <= i < s.len() && s[i] is Send && s[i]->Send_0 == p && s[i]->Send_1 is Payloads && 0 <= j < s[i]->Send_1->Payloads_0.len()
                    && #[trigger] s[i]->Send_1->Payloads_0[j] == block;
            if i < front.len() {
                assert(front[i]->Send_1->Payloads_0[j] == block);
            } else {
                assert(seq![e][0]->Send_1->Payloads_0[j] == block);
            }
        }
    }
}

} // verus!
