//! How a set's figures relate to its bricks'.

use super::care::{stats_of, stats_sum, summed, tier_lines};
use crate::brick::{Brick, GcStats};
use crate::disk::Disk;
use vstd::prelude::*;

verus! {

/// A set's figures leave no brick out: none is below that of any one brick.
pub proof fn law_every_brick_is_counted<D: Disk>(bricks: Seq<Brick<D>>, n: nat, i: int)
    requires
        n <= bricks.len(),
        0 <= i < n,
    ensures
        stats_sum(bricks, n).blocks >= bricks[i].held().len() as u64,
        stats_sum(bricks, n).segments_total >= bricks[i].superblock().segment_count,
        stats_sum(bricks, n).segments_free >= bricks[i].free_list().len() as u64,
        stats_sum(bricks, n).payload_bytes >= stats_of(bricks[i]).payload_bytes,
    decreases n,
{
    if i < n - 1 {
        law_every_brick_is_counted(bricks, (n - 1) as nat, i);
    }
}

/// A set's segments are either live or free, where their number fits a word.
pub proof fn law_segments_are_live_or_free<D: Disk>(bricks: Seq<Brick<D>>, n: nat)
    requires
        n <= bricks.len(),
        forall|i: int| 0 <= i < n ==> (#[trigger] bricks[i]).free_list().len() <= bricks[i].superblock().segment_count,
        stats_sum(bricks, n).segments_total < u64::MAX,
    ensures
        stats_sum(bricks, n).segments_live + stats_sum(bricks, n).segments_free == stats_sum(bricks, n).segments_total,
    decreases n,
{
    if n > 0 {
        law_segments_are_live_or_free(bricks, (n - 1) as nat);
        assert(bricks[n - 1].free_list().len() <= bricks[n - 1].superblock().segment_count);
    }
}

/// The lines told of a tier are those of its bricks, every one and no other:
/// each has its brick's name, tier and part.
pub proof fn law_every_brick_has_its_line<D: Disk>(bricks: Seq<Brick<D>>, tier: u8, n: nat, i: int, k: int)
    requires
        n <= bricks.len(),
    ensures
        0 <= i < n && bricks[i].superblock().tier == tier ==> exists|j: int|
            0 <= j < tier_lines(bricks, tier, n).len() && (#[trigger] tier_lines(bricks, tier, n)[j]).brick_uuid == bricks[i].superblock().brick_uuid
                && tier_lines(bricks, tier, n)[j].tier == tier && tier_lines(bricks, tier, n)[j].wal_holder == bricks[i].superblock().wal_holder,
        0 <= k < tier_lines(bricks, tier, n).len() ==> exists|j: int|
            0 <= j < n && (#[trigger] bricks[j]).superblock().tier == tier && tier_lines(bricks, tier, n)[k].brick_uuid == bricks[j].superblock().brick_uuid,
    decreases n,
{
    if n > 0 {
        let rest = tier_lines(bricks, tier, (n - 1) as nat);
        let all = tier_lines(bricks, tier, n);
        law_every_brick_has_its_line(bricks, tier, (n - 1) as nat, i, k);
        if 0 <= i < n && bricks[i].superblock().tier == tier {
            if i < n - 1 {
                let j = choose|j: int|
                    0 <= j < rest.len() && (#[trigger] rest[j]).brick_uuid == bricks[i].superblock().brick_uuid && rest[j].tier == tier && rest[j].wal_holder
                        == bricks[i].superblock().wal_holder;
                assert(all[j] == rest[j]);
            } else {
                assert(all[rest.len() as int].brick_uuid == bricks[i].superblock().brick_uuid);
            }
        }
        if 0 <= k < all.len() {
            if k < rest.len() {
                assert(all[k] == rest[k]);
            } else {
                assert(bricks[n - 1].superblock().tier == tier);
            }
        }
    }
}

/// What a sweep of a set reports leaves no brick's part out.
pub proof fn law_a_sweep_counts_every_brick(each: Seq<GcStats>, i: int)
    requires
        0 <= i < each.len(),
    ensures
        summed(each).blocks_dropped >= each[i].blocks_dropped,
        summed(each).blocks_moved >= each[i].blocks_moved,
        summed(each).segments_freed >= each[i].segments_freed,
        summed(each).segments_compacted >= each[i].segments_compacted,
    decreases each.len(),
{
    if i < each.len() - 1 {
        assert(each.drop_last()[i] == each[i]);
        law_a_sweep_counts_every_brick(each.drop_last(), i);
    }
}

} // verus!
