//! What a brick's geometry is good for, and where its records go.

use super::read::read_fault;
use super::{
    formatted, geometry_fault, header_at, lowest_at, mount_fault, payload_at, seg_holds_any, seg_live, seg_seq, sound, top_seq, vacant, Brick, BrickParams, Location,
};
use crate::disk::Disk;
use crate::format::{span_of, u32_at, Superblock, SECTOR_SIZE, WAL_AREA_START};
use crate::hash::{address_of, BlockHash};
use vstd::prelude::*;

verus! {

/// A geometry is laid out just where its block is a positive number of
/// sectors, a segment is a number of sectors that takes its header and the
/// largest record, the WAL area is there for a holder alone and is then at
/// least two sectors, and the disk has room for one segment behind it.
pub proof fn law_a_geometry_is_refused_for_cause(params: BrickParams, size: int)
    ensures
        geometry_fault(params, size) is None <==> {
            &&& params.block_size > 0 && params.block_size as int % SECTOR_SIZE as int == 0
            &&& params.segment_size as int % SECTOR_SIZE as int == 0
            &&& params.segment_size >= SECTOR_SIZE + span_of(params.block_size)
            &&& if params.wal_holder {
                params.wal_size as int % SECTOR_SIZE as int == 0 && params.wal_size >= 2 * SECTOR_SIZE
            } else {
                params.wal_size == 0
            }
            &&& WAL_AREA_START + params.wal_size + params.segment_size <= size
        },
{
}

/// What a format lays out, an open takes: the superblock written for a
/// geometry that is not refused is one that is mounted, on a disk of that
/// size or a larger one, and it has at least one segment.
pub proof fn law_what_is_laid_out_mounts(params: BrickParams, size: int, larger: int)
    requires
        geometry_fault(params, size) is None,
        size <= larger <= u64::MAX,
    ensures
        mount_fault(formatted(params, size), larger) is None,
        formatted(params, size).segment_count >= 1,
{
    let start = WAL_AREA_START + params.wal_size;
    let seg = params.segment_size as int;
    let n = (size - start) / seg;
    assert(n >= 1 && n * seg <= size - start && n <= size - start) by (nonlinear_arith)
        requires
            n == (size - start) / seg,
            seg >= 1,
            size - start >= seg,
    ;
}

/// A superblock is mounted just where its segments end within the disk and
/// its geometry is sound there.
pub proof fn law_a_mounted_brick_fits_its_disk(sb: Superblock, size: int)
    requires
        mount_fault(sb, size) is None,
    ensures
        sb.segment_area_start + sb.segment_count * sb.segment_size <= size,
        sb.segment_count > 0,
        sb.segment_area_start == WAL_AREA_START + sb.wal_size,
        sb.wal_size > 0 <==> sb.wal_holder,
        sb.segment_size >= SECTOR_SIZE + span_of(sb.block_size),
{
    assert(sound(sb, size));
}

/// The incarnation a brick goes on from is the highest found on the disk:
/// no segment with a header has a higher one, and some segment has it, unless
/// none has a header.
pub proof fn law_incarnations_go_on_from_the_highest(b: Seq<u8>, sb: Superblock, below: nat)
    ensures
        forall|i: int| 0 <= i < below && #[trigger] seg_live(b, sb, i) ==> seg_seq(b, sb, i) <= top_seq(b, sb, below),
        top_seq(b, sb, below) > 0 ==> exists|i: int| 0 <= i < below && #[trigger] seg_live(b, sb, i) && seg_seq(b, sb, i) == top_seq(b, sb, below),
    decreases below,
{
    if below > 0 {
        law_incarnations_go_on_from_the_highest(b, sb, (below - 1) as nat);
        if top_seq(b, sb, below) > 0 {
            if seg_live(b, sb, below - 1) && seg_seq(b, sb, below - 1) == top_seq(b, sb, below) {
            } else {
                let i = choose|i: int| 0 <= i < below - 1 && #[trigger] seg_live(b, sb, i) && seg_seq(b, sb, i) == top_seq(b, sb, (below - 1) as nat);
                assert(seg_live(b, sb, i) && seg_seq(b, sb, i) == top_seq(b, sb, below));
            }
        }
    }
}

/// The segments free after an open are those in which no record was found,
/// each once.
pub proof fn law_a_segment_is_free_when_nothing_is_found(b: Seq<u8>, sb: Superblock, below: nat, i: u64)
    requires
        below <= u64::MAX,
    ensures
        vacant(b, sb, below).contains(i) <==> i < below && !seg_holds_any(b, sb, i as int),
        vacant(b, sb, below).no_duplicates(),
        vacant(b, sb, below).len() <= below,
    decreases below,
{
    if below > 0 {
        let before = vacant(b, sb, (below - 1) as nat);
        let all = vacant(b, sb, below);
        law_a_segment_is_free_when_nothing_is_found(b, sb, (below - 1) as nat, i);
        law_a_segment_is_free_when_nothing_is_found(b, sb, (below - 1) as nat, (below - 1) as u64);
        if all.contains(i) {
            let k = choose|k: int| 0 <= k < all.len() && all[k] == i;
            if k < before.len() {
                assert(before[k] == i);
            }
        }
        if before.contains(i) {
            let k = choose|k: int| 0 <= k < before.len() && before[k] == i;
            assert(all[k] == i);
        }
        if i == below - 1 && !seg_holds_any(b, sb, i as int) {
            assert(all.last() == i);
        }
        assert(all.no_duplicates()) by {
            assert(!before.contains((below - 1) as u64));
            assert forall|p: int, q: int| 0 <= p < q < all.len() implies all[p] != all[q] by {
                if q == before.len() {
                    assert(before[p] == all[p]);
                    assert(before.contains(all[p]));
                }
            }
        }
    }
}

/// A read that is not refused hands out bytes that hash to the address asked
/// for, and as many as the header on the disk says.
pub proof fn law_a_read_answers_to_its_address(b: Seq<u8>, block_size: u32, hash: BlockHash, loc: Location)
    requires
        read_fault(b, block_size, hash, loc) is None,
    ensures
        address_of(payload_at(b, loc.offset as int, loc.length as int)) == hash,
        u32_at(header_at(b, loc.offset as int), 16) == loc.length,
{
}

/// A brick that opens a segment takes the lowest that was free, takes no
/// other, and gives it an incarnation that none had before.
pub proof fn law_the_lowest_free_segment_is_opened<D: Disk>(before: &Brick<D>, after: &Brick<D>, cursor: int)
    requires
        after.opened_lowest(before, cursor),
    ensures
        after.writing() is Some,
        before.free_list().contains(after.writing()->Some_0.index),
        forall|x: u64| #[trigger] before.free_list().contains(x) ==> after.writing()->Some_0.index <= x,
        after.writing()->Some_0.seq > before.last_seq(),
        after.free_list().len() == before.free_list().len() - 1,
        forall|x: u64| #[trigger] after.free_list().contains(x) ==> before.free_list().contains(x),
{
    let at = choose|at: int| #[trigger] lowest_at(before.free_list(), at) && {
        &&& after.free_list() == before.free_list().remove(at)
        &&& after.last_seq() == before.last_seq() + 1
        &&& after.writing() matches Some(o) && o.index == before.free_list()[at] && o.seq == after.last_seq() && o.cursor == super::seg_base(
            after.superblock(),
            o.index as int,
        ) + cursor
    };
    let free = before.free_list();
    assert forall|x: u64| #[trigger] free.contains(x) implies free[at] <= x by {
        let k = choose|k: int| 0 <= k < free.len() && free[k] == x;
        assert(free[at] <= free[k]);
    }
    assert forall|x: u64| #[trigger] after.free_list().contains(x) implies free.contains(x) by {
        let k = choose|k: int| 0 <= k < after.free_list().len() && after.free_list()[k] == x;
        if k < at {
            assert(free[k] == x);
        } else {
            assert(free[k + 1] == x);
        }
    }
}

} // verus!
