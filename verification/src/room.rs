//! A change of a vdisk's bytes that makes room for itself: where the ring or
//! the bricks are full, it checkpoints or collects and goes again.

use crate::brick::GcStats;
use crate::burn::{after_remedy, remedies_left, remedy, remedy_for, Remedy, Tried};
use crate::bytes::{bytes_trimmed, bytes_written, ByteView};
use crate::disk::Disk;
use crate::error::{FsError, Result};
use crate::pool::checkpoint::checkpointed;
use crate::pool::collect::garbage_collected;
use crate::pool::Pool;
use vstd::prelude::*;

verus! {

/// A change of a vdisk's bytes.
#[derive(Debug)]
pub enum Change {
    Write { offset: u64, data: Vec<u8> },
    Trim { offset: u64, len: u64 },
}

/// A change that has had no remedy yet.
pub open spec fn untried() -> Tried {
    Tried { checkpointed: false, collected: false }
}

/// What one attempt at a change comes to.
pub open spec fn attempted<D: Disk>(a: &Pool<D>, b: &Pool<D>, vdisk: u64, change: Change, r: Result<()>) -> bool {
    match change {
        Change::Write { offset, data } => bytes_written(a, b, vdisk, offset, data@, r),
        Change::Trim { offset, len } => bytes_trimmed(a, b, vdisk, offset, len, r),
    }
}

/// What a change comes to, with the remedies tried so far: the first attempt
/// that succeeds or fails for want of anything but room, or the failure of a
/// remedy, or the error once no remedy is left.
pub open spec fn change_made<D: Disk>(a: &Pool<D>, b: &Pool<D>, vdisk: u64, change: Change, tried: Tried, r: Result<()>) -> bool
    decreases remedies_left(tried),
{
    exists|mid: Pool<D>, c: Result<()>| #[trigger]
        attempted(a, &mid, vdisk, change, c) && match c {
            Ok(_) => r is Ok && *b == mid,
            Err(e) => match remedy_for(e, tried) {
                None => r == Err::<(), FsError>(e) && *b == mid,
                Some(Remedy::Checkpoint) => exists|after: Pool<D>, d: Result<()>| #[trigger]
                    checkpointed(&mid, &after, d) && match d {
                        Err(f) => r == Err::<(), FsError>(f) && *b == after,
                        Ok(_) => change_made(&after, b, vdisk, change, after_remedy(tried, Remedy::Checkpoint), r),
                    },
                Some(Remedy::Collect) => exists|after: Pool<D>, d: Result<GcStats>| #[trigger]
                    garbage_collected(&mid, &after, d) && match d {
                        Err(f) => r == Err::<(), FsError>(f) && *b == after,
                        Ok(_) => change_made(&after, b, vdisk, change, after_remedy(tried, Remedy::Collect), r),
                    },
            },
        }
}

/// Make a change, with the remedies that were not tried yet.
pub fn make_change<D: Disk>(pool: &mut Pool<D>, vdisk: u64, change: &Change, tried: Tried) -> (r: Result<()>)
    requires
        old(pool).inv(),
    ensures
        final(pool).inv(),
        change_made(old(pool), final(pool), vdisk, *change, tried, r),
    decreases remedies_left(tried),
{
    let c = match change {
        Change::Write { offset, data } => pool.write_bytes(vdisk, *offset, data.as_slice()),
        Change::Trim { offset, len } => pool.trim_bytes(vdisk, *offset, *len),
    };
    let ghost mid = *pool;
    assert(attempted(old(pool), &mid, vdisk, *change, c));
    let err = match c {
        Ok(()) => {
            return c;
        },
        Err(err) => err,
    };
    let mut now = tried;
    match remedy(&err, &mut now) {
        None => c,
        Some(Remedy::Checkpoint) => {
            let d = pool.checkpoint();
            let ghost after = *pool;
            assert(checkpointed(&mid, &after, d));
            if let Err(f) = d {
                return d;
            }
            make_change(pool, vdisk, change, now)
        },
        Some(Remedy::Collect) => {
            let d = pool.collect_garbage();
            let ghost after = *pool;
            assert(garbage_collected(&mid, &after, d));
            if let Err(f) = d {
                return Err(f);
            }
            make_change(pool, vdisk, change, now)
        },
    }
}

/// A change is refused for want of blocks only once a collection was tried,
/// or a checkpoint came to want them too.
pub proof fn law_a_collection_comes_before_full<D: Disk>(a: &Pool<D>, b: &Pool<D>, vdisk: u64, change: Change, tried: Tried, r: Result<()>)
    requires
        change_made(a, b, vdisk, change, tried, r),
        r is Err,
        r->Err_0 is Full,
        !tried.collected,
    ensures
        (exists|x: Pool<D>, y: Pool<D>, g: Result<GcStats>| #[trigger] garbage_collected(&x, &y, g)) || (exists|x: Pool<D>, c: Result<()>| #[trigger]
            checkpointed(&x, b, c) && c is Err),
    decreases remedies_left(tried),
{
    let (mid, c) = choose|mid: Pool<D>, c: Result<()>| #[trigger]
        attempted(a, &mid, vdisk, change, c) && match c {
            Ok(_) => r is Ok && *b == mid,
            Err(e) => match remedy_for(e, tried) {
                None => r == Err::<(), FsError>(e) && *b == mid,
                Some(Remedy::Checkpoint) => exists|after: Pool<D>, d: Result<()>| #[trigger]
                    checkpointed(&mid, &after, d) && match d {
                        Err(f) => r == Err::<(), FsError>(f) && *b == after,
                        Ok(_) => change_made(&after, b, vdisk, change, after_remedy(tried, Remedy::Checkpoint), r),
                    },
                Some(Remedy::Collect) => exists|after: Pool<D>, d: Result<GcStats>| #[trigger]
                    garbage_collected(&mid, &after, d) && match d {
                        Err(f) => r == Err::<(), FsError>(f) && *b == after,
                        Ok(_) => change_made(&after, b, vdisk, change, after_remedy(tried, Remedy::Collect), r),
                    },
            },
        };
    if let Err(e) = c {
        match remedy_for(e, tried) {
            None => {},
            Some(Remedy::Checkpoint) => {
                let (after, d) = choose|after: Pool<D>, d: Result<()>| #[trigger]
                    checkpointed(&mid, &after, d) && match d {
                        Err(f) => r == Err::<(), FsError>(f) && *b == after,
                        Ok(_) => change_made(&after, b, vdisk, change, after_remedy(tried, Remedy::Checkpoint), r),
                    };
                if d is Ok {
                    law_a_collection_comes_before_full(&after, b, vdisk, change, after_remedy(tried, Remedy::Checkpoint), r);
                } else {
                    assert(checkpointed(&mid, b, d));
                }
            },
            Some(Remedy::Collect) => {
                let (after, d) = choose|after: Pool<D>, d: Result<GcStats>| #[trigger]
                    garbage_collected(&mid, &after, d) && match d {
                        Err(f) => r == Err::<(), FsError>(f) && *b == after,
                        Ok(_) => change_made(&after, b, vdisk, change, after_remedy(tried, Remedy::Collect), r),
                    };
                assert(garbage_collected(&mid, &after, d));
            },
        }
    }
}

} // verus!
