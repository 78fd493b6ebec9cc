//! The tables that a checkpoint's manifest lists.

use super::super::open::{fresh_view, listed, listed_vdisks};
use super::super::{Pool, SnapshotState, VdiskHead, VdiskView};
use super::{all_folded, heads_of};
use crate::disk::Disk;
use crate::hash::BlockHash;
use crate::table::{entry_for, has_entry, SnapshotId, SortKey, SortedMap};
use vstd::prelude::*;

verus! {

/// No key stands twice.
spec fn keyed_apart<K, V>(s: Seq<(K, V)>) -> bool {
    forall|i: int, j: int| 0 <= i < j < s.len() ==> (#[trigger] s[i]).0 != (#[trigger] s[j]).0
}

proof fn lemma_listed<K, V>(s: Seq<(K, V)>)
    requires
        keyed_apart(s),
    ensures
        forall|k: K| #[trigger] listed(s).contains_key(k) <==> has_entry(s, k),
        forall|i: int| 0 <= i < s.len() ==> listed(s)[(#[trigger] s[i]).0] == s[i].1,
    decreases s.len(),
{
    if s.len() > 0 {
        let rest = s.drop_last();
        assert forall|i: int, j: int| 0 <= i < j < rest.len() implies (#[trigger] rest[i]).0 != (#[trigger] rest[j]).0 by {
            assert(s[i].0 != s[j].0);
        }
        lemma_listed(rest);
        assert(listed(s) == listed(rest).insert(s.last().0, s.last().1));
        assert forall|k: K| #[trigger] listed(s).contains_key(k) <==> has_entry(s, k) by {
            assert(listed(s).contains_key(k) <==> listed(rest).contains_key(k) || k == s.last().0);
            if has_entry(rest, k) {
                let i = choose|i: int| #[trigger] entry_for(rest, k, i);
                assert(entry_for(s, k, i));
            }
            if k == s.last().0 {
                assert(entry_for(s, k, s.len() - 1));
            }
            if has_entry(s, k) {
                let i = choose|i: int| #[trigger] entry_for(s, k, i);
                if i < s.len() - 1 {
                    assert(entry_for(rest, k, i));
                }
            }
        }
        assert forall|i: int| 0 <= i < s.len() implies listed(s)[(#[trigger] s[i]).0] == s[i].1 by {
            if i < s.len() - 1 {
                assert(rest[i] == s[i]);
                assert(s[i].0 != s[s.len() - 1].0);
            }
        }
    }
}

/// A table listed in order reads back as the table.
proof fn lemma_listing_back<K: SortKey, V>(t: &SortedMap<K, V>)
    requires
        t.wf(),
    ensures
        listed(t.listing()) == t@,
{
    t.lemma_listing();
    let s = t.listing();
    lemma_listed(s);
    assert forall|k: K| t@.contains_key(k) implies #[trigger] listed(s)[k] == t@[k] by {
        let i = choose|i: int| #[trigger] entry_for(s, k, i);
        assert(t@.contains_pair(s[i].0, s[i].1));
    }
    assert(listed(s) =~= t@);
}

proof fn lemma_listed_vdisks(s: Seq<(u64, VdiskHead)>)
    ensures
        listed_vdisks(s) == listed(Seq::new(s.len(), |i: int| (s[i].0, fresh_view(s[i].1)))),
    decreases s.len(),
{
    let t = Seq::new(s.len(), |i: int| (s[i].0, fresh_view(s[i].1)));
    if s.len() > 0 {
        let rest = s.drop_last();
        lemma_listed_vdisks(rest);
        assert(t.drop_last() =~= Seq::new(rest.len(), |i: int| (rest[i].0, fresh_view(rest[i].1))));
    }
}

impl<D: Disk> Pool<D> {
    /// The tables a checkpointed pool's manifest opens with are its own.
    pub proof fn lemma_manifest_tables(&self)
        requires
            self.inv(),
            all_folded(self.vdisk_map()),
        ensures
            listed_vdisks(self.manifest_view().vdisks) == self.vdisk_map(),
            listed(self.manifest_view().snapshots) == self.snapshot_map(),
            listed(self.manifest_view().leases) == self.lease_map(),
    {
        lemma_listing_back(&self.snapshots);
        lemma_listing_back(&self.leases);
        self.vdisks.lemma_listing();
        let s = self.vdisks.listing();
        let heads = heads_of(s);
        lemma_listed_vdisks(heads);
        let t = Seq::new(heads.len(), |i: int| (heads[i].0, fresh_view(heads[i].1)));
        assert forall|i: int, j: int| 0 <= i < j < t.len() implies (#[trigger] t[i]).0 != (#[trigger] t[j]).0 by {
            assert(s[i].0 != s[j].0);
        }
        lemma_listed(t);
        let m = self.vdisk_map();
        assert forall|k: u64| #[trigger] listed(t).contains_key(k) <==> m.contains_key(k) by {
            if has_entry(t, k) {
                let i = choose|i: int| #[trigger] entry_for(t, k, i);
                assert(self.vdisks@.contains_pair(s[i].0, s[i].1));
            }
            if self.vdisks@.contains_key(k) {
                let i = choose|i: int| #[trigger] entry_for(s, k, i);
                assert(entry_for(t, k, i));
            }
        }
        assert forall|k: u64| m.contains_key(k) implies #[trigger] listed(t)[k] == m[k] by {
            assert(self.vdisks@.contains_key(k));
            let i = choose|i: int| #[trigger] entry_for(s, k, i);
            assert(self.vdisks@.contains_pair(s[i].0, s[i].1));
            assert(listed(t)[t[i].0] == t[i].1);
            assert(m[k].dirty == Map::<u64, Option<BlockHash>>::empty());
        }
        assert(listed(t) =~= m);
    }

    /// A blank pool has neither vdisks nor snapshots.
    pub proof fn lemma_blank(&self)
        requires
            self.inv(),
            self.blank(),
        ensures
            self.vdisk_map() == Map::<u64, VdiskView>::empty(),
            self.snapshot_map() == Map::<SnapshotId, SnapshotState>::empty(),
    {
        self.vdisks.lemma_listing();
        self.snapshots.lemma_listing();
        assert(self.vdisk_map().dom() =~= self.vdisks@.dom());
        assert(self.vdisk_map() =~= Map::empty());
        assert(self.snapshot_map() =~= Map::empty());
    }
}

} // verus!
