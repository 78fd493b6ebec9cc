//! Folds, one after the other.

use super::{
    arity, canonical, canonical_at, entry_of, extends, folded_root, law_fold_then_lookup, law_folds_keep_trees_canonical, law_the_mapping_decides_the_root,
    lead_alike, lemma_reach_positive, lemma_tree_grows, path_ok, reach, recorded, tree_get, under_one, written, Mutations,
};
use crate::hash::BlockHash;
use vstd::prelude::*;

verus! {

/// A run of folds: the store and the root after each, from an empty tree on.
pub struct FoldRun {
    pub shelves: Seq<Map<BlockHash, Seq<u8>>>,
    pub roots: Seq<Option<BlockHash>>,
    pub muts: Seq<Mutations>,
}

/// The `i`-th fold took the tree from one root to the next, in a store that
/// has only grown and in which every node it wrote reads back.
pub open spec fn folds_at(run: FoldRun, bs: u32, level: nat, i: int) -> bool {
    let (m, root, muts) = (run.shelves[i + 1], run.roots[i], run.muts[i]);
    &&& extends(run.shelves[i], m)
    &&& forall|k: u64| #[trigger] muts.contains_key(k) ==> k < reach(arity(bs), (level + 1) as nat)
    &&& if muts.dom().len() == 0 && muts.dom().finite() {
        run.roots[i + 1] == root
    } else {
        path_ok(m, bs, root, level, muts) && written(m, bs, root, level, muts) && run.roots[i + 1] == folded_root(m, bs, root, level, muts)
    }
}

pub open spec fn fold_run(run: FoldRun, bs: u32, level: nat) -> bool {
    &&& arity(bs) >= 1
    &&& run.shelves.len() == run.muts.len() + 1
    &&& run.roots.len() == run.muts.len() + 1
    &&& run.roots[0] is None
    &&& forall|i: int| 0 <= i < run.muts.len() ==> #[trigger] folds_at(run, bs, level, i)
}

/// Where some mutations, one after the other, leave an index.
pub open spec fn left_by(muts: Seq<Mutations>, k: u64) -> Option<BlockHash>
    decreases muts.len(),
{
    if muts.len() == 0 {
        None
    } else if muts.last().contains_key(k) {
        recorded(muts.last()[k])
    } else {
        left_by(muts.drop_last(), k)
    }
}

/// What leads somewhere under a root leads there still after any fold: old
/// roots stay good.
pub proof fn law_old_roots_stay(m: Map<BlockHash, Seq<u8>>, n: Map<BlockHash, Seq<u8>>, bs: u32, root: Option<BlockHash>, levels: nat, k: u64)
    requires
        extends(m, n),
        tree_get(m, bs, root, levels, k) is Some,
    ensures
        tree_get(n, bs, root, levels, k) == tree_get(m, bs, root, levels, k),
{
    if let Some(h) = root {
        lemma_tree_grows(m, n, bs, h, levels, k);
    }
}

proof fn lemma_canonical_grows(m: Map<BlockHash, Seq<u8>>, n: Map<BlockHash, Seq<u8>>, bs: u32, h: BlockHash, level: nat)
    requires
        extends(m, n),
        canonical_at(m, bs, h, level),
    ensures
        canonical_at(n, bs, h, level),
    decreases level,
{
    if level > 0 {
        assert forall|slot: int| 0 <= slot < arity(bs) implies ((#[trigger] entry_of(n[h], slot)) matches Some(child) ==> canonical_at(
            n,
            bs,
            child,
            (level - 1) as nat,
        )) by {
            if let Some(child) = entry_of(m[h], slot) {
                lemma_canonical_grows(m, n, bs, child, (level - 1) as nat);
            }
        }
    }
}

/// A run of folds leaves a canonical tree that leads every index where the
/// mutations left it.
pub proof fn law_a_run_of_folds_leads_where_it_was_told(run: FoldRun, bs: u32, level: nat)
    requires
        fold_run(run, bs, level),
    ensures
        canonical(run.shelves.last(), bs, run.roots.last(), level),
        forall|k: u64|
            k < reach(arity(bs), (level + 1) as nat) ==> #[trigger] tree_get(run.shelves.last(), bs, run.roots.last(), level + 1, k) == Some(left_by(run.muts, k)),
    decreases run.muts.len(),
{
    if run.muts.len() > 0 {
        let rest = FoldRun { shelves: run.shelves.drop_last(), roots: run.roots.drop_last(), muts: run.muts.drop_last() };
        assert forall|i: int| 0 <= i < rest.muts.len() implies #[trigger] folds_at(rest, bs, level, i) by {
            assert(folds_at(run, bs, level, i));
        }
        law_a_run_of_folds_leads_where_it_was_told(rest, bs, level);
        let i = run.muts.len() - 1;
        assert(folds_at(run, bs, level, i));
        let (m, n, root, muts) = (run.shelves[i], run.shelves[i + 1], run.roots[i], run.muts[i]);
        assert(rest.shelves.last() == m && rest.roots.last() == root);
        if let Some(h) = root {
            lemma_canonical_grows(m, n, bs, h, level);
        }
        lemma_reach_positive(arity(bs), (level + 1) as nat);
        let r = reach(arity(bs), (level + 1) as nat);
        if muts.dom().len() == 0 && muts.dom().finite() {
            assert(muts.dom() =~= Set::<u64>::empty());
            assert forall|k: u64| k < r implies #[trigger] tree_get(n, bs, run.roots[i + 1], level + 1, k) == Some(left_by(run.muts, k)) by {
                assert(!muts.dom().contains(k));
                assert(tree_get(m, bs, root, level + 1, k) == Some(left_by(rest.muts, k)));
                law_old_roots_stay(m, n, bs, root, level + 1, k);
            }
        } else {
            law_folds_keep_trees_canonical(n, bs, root, level, muts);
            assert(under_one(bs, level, muts, 0)) by {
                assert forall|k: u64| #[trigger] muts.contains_key(k) implies k as int / r == 0 by {
                    vstd::arithmetic::div_mod::lemma_basic_div(k as int, r);
                }
            }
            assert forall|k: u64| k < r implies #[trigger] tree_get(n, bs, run.roots[i + 1], level + 1, k) == Some(left_by(run.muts, k)) by {
                vstd::arithmetic::div_mod::lemma_basic_div(k as int, r);
                assert(tree_get(m, bs, root, level + 1, k) == Some(left_by(rest.muts, k)));
                law_old_roots_stay(m, n, bs, root, level + 1, k);
                law_fold_then_lookup(n, bs, root, level, muts, 0, k);
            }
        }
    }
}

/// Two runs of folds that leave equal mappings end at equal roots, in
/// whatever stores; and a run ends at no root exactly where it leaves no
/// mapping.
pub proof fn law_equal_mappings_give_equal_roots(a: FoldRun, b: FoldRun, bs: u32, level: nat)
    requires
        fold_run(a, bs, level),
        fold_run(b, bs, level),
        bs % 32 == 0,
        reach(arity(bs), (level + 1) as nat) <= u64::MAX,
        forall|k: u64| k < reach(arity(bs), (level + 1) as nat) ==> #[trigger] left_by(a.muts, k) == left_by(b.muts, k),
    ensures
        a.roots.last() == b.roots.last(),
        a.roots.last() is None <==> forall|k: u64| k < reach(arity(bs), (level + 1) as nat) ==> #[trigger] left_by(a.muts, k) is None,
{
    let r = reach(arity(bs), (level + 1) as nat);
    law_a_run_of_folds_leads_where_it_was_told(a, bs, level);
    law_a_run_of_folds_leads_where_it_was_told(b, bs, level);
    lemma_alike_below(a, b, bs, level);
    law_the_mapping_decides_the_root(a.shelves.last(), a.roots.last(), b.shelves.last(), b.roots.last(), bs, level, 0);
    let none = FoldRun { shelves: seq![Map::empty()], roots: seq![None], muts: Seq::empty() };
    assert(fold_run(none, bs, level));
    law_a_run_of_folds_leads_where_it_was_told(none, bs, level);
    if forall|k: u64| k < r ==> #[trigger] left_by(a.muts, k) is None {
        assert forall|k: u64| k < r implies #[trigger] left_by(a.muts, k) == left_by(none.muts, k) by {}
        lemma_alike_below(a, none, bs, level);
        law_the_mapping_decides_the_root(a.shelves.last(), a.roots.last(), none.shelves.last(), none.roots.last(), bs, level, 0);
    }
    if a.roots.last() is None {
        assert forall|k: u64| k < r implies #[trigger] left_by(a.muts, k) is None by {
            assert(tree_get(a.shelves.last(), bs, a.roots.last(), level + 1, k) == Some(left_by(a.muts, k)));
        }
    }
}

proof fn lemma_alike_below(a: FoldRun, b: FoldRun, bs: u32, level: nat)
    requires
        fold_run(a, bs, level),
        fold_run(b, bs, level),
        forall|k: u64| k < reach(arity(bs), (level + 1) as nat) ==> #[trigger] left_by(a.muts, k) == left_by(b.muts, k),
    ensures
        lead_alike(a.shelves.last(), a.roots.last(), b.shelves.last(), b.roots.last(), bs, level, 0),
        (0 + 1) * reach(arity(bs), (level + 1) as nat) == reach(arity(bs), (level + 1) as nat),
{
    let r = reach(arity(bs), (level + 1) as nat);
    assert((0 + 1) * r == r) by (nonlinear_arith);
    law_a_run_of_folds_leads_where_it_was_told(a, bs, level);
    law_a_run_of_folds_leads_where_it_was_told(b, bs, level);
    lemma_reach_positive(arity(bs), (level + 1) as nat);
    assert forall|k: u64| k as int / r == 0 implies #[trigger] tree_get(a.shelves.last(), bs, a.roots.last(), level + 1, k) == tree_get(
        b.shelves.last(),
        bs,
        b.roots.last(),
        level + 1,
        k,
    ) by {
        assert(k < r) by {
            vstd::arithmetic::div_mod::lemma_fundamental_div_mod(k as int, r);
        }
        assert(left_by(a.muts, k) == left_by(b.muts, k));
    }
}

} // verus!
