use lumen_fs::hash::{hash_block, BlockHash};
use lumen_fs::slice::{slice_of, NodeId, SliceMap, SLICES};

fn hash_with_slice(slice: u8) -> BlockHash {
    let mut bytes = [0u8; 32];
    bytes[0] = slice;
    BlockHash::from_bytes(bytes)
}

#[test]
fn two_members_hold_everything_so_every_read_is_local() {
    let map = SliceMap::for_members(1, &vec![0, 1]).unwrap();
    for slice in 0..SLICES {
        let homes = map.homes(slice);
        assert!(homes.contains(&0) && homes.contains(&1), "slice {slice}");
    }
    assert_eq!(map.seats(0), SLICES);
    assert_eq!(map.seats(1), SLICES);
    for slice in 0..=255u8 {
        let hash = hash_with_slice(slice);
        assert_eq!(map.read_from(0, &hash), 0);
        assert_eq!(map.read_from(1, &hash), 1);
    }
}

#[test]
fn three_members_split_the_ring_evenly() {
    let map = SliceMap::for_members(1, &vec![0, 1, 2]).unwrap();
    // 512 seats across three members: 171, 171, 170.
    let seats: Vec<usize> = (0..3).map(|n| map.seats(n)).collect();
    assert_eq!(seats.iter().sum::<usize>(), 2 * SLICES);
    for count in &seats {
        assert!(
            count.abs_diff(2 * SLICES / 3) <= 1,
            "seats were {seats:?}, which is not even"
        );
    }
    // The design names this pattern: (A,B), (B,C), (C,A).
    assert_eq!(map.homes(0), [0, 1]);
    assert_eq!(map.homes(1), [1, 2]);
    assert_eq!(map.homes(2), [2, 0]);
    assert_eq!(map.homes(3), [0, 1]);
}

#[test]
fn placement_follows_the_hash_so_duplicates_land_together() {
    let map = SliceMap::for_members(1, &vec![0, 1, 2]).unwrap();
    let payload = hash_block(b"the same bytes twice");
    assert_eq!(map.homes_of(&payload), map.homes_of(&payload));
    // And the slices are actually used: every one of the 256 is the
    // home of some hash, so nothing is dead space.
    let mut seen = [false; SLICES];
    for n in 0..4096u32 {
        seen[slice_of(&hash_block(&n.to_le_bytes()))] = true;
    }
    assert!(
        seen.iter().all(|hit| *hit),
        "some slice was never selected by any hash"
    );
}

#[test]
fn growing_to_three_fills_the_newcomer_and_never_strands_a_slice() {
    let two = SliceMap::for_members(1, &vec![0, 1]).unwrap();
    let grown = two.reassigned(2, &vec![0, 1, 2]).unwrap();

    assert!(grown.orphaned.is_empty(), "nothing should be orphaned");
    // The newcomer's seats are exactly the copies required, each on a
    // different slice — one home at a time, as promised.
    assert_eq!(grown.map.seats(2), grown.moves.len());
    let mut slices: Vec<usize> = grown.moves.iter().map(|m| m.slice).collect();
    let count = slices.len();
    slices.sort_unstable();
    slices.dedup();
    assert_eq!(slices.len(), count, "a slice moved twice in one step");
    assert!(
        grown.moves.iter().all(|m| m.target == 2),
        "only the newcomer should be gaining slices"
    );

    // Every slice keeps a member that already held its blocks: the
    // copy has a source and readers keep reading throughout.
    for slice in 0..SLICES {
        let before = two.homes(slice);
        let after = grown.map.homes(slice);
        assert!(
            after.iter().any(|node| before.contains(node)),
            "slice {slice} lost both of its homes at once"
        );
    }
    // And a move's source really holds the slice.
    for m in &grown.moves {
        assert!(two.homes(m.slice).contains(&m.source));
    }
}

#[test]
fn shrinking_back_to_two_reprotects_every_slice_the_leaver_held() {
    let three = SliceMap::for_members(1, &vec![0, 1, 2]).unwrap();
    let shrunk = three.reassigned(2, &vec![0, 1]).unwrap();

    assert!(shrunk.orphaned.is_empty());
    for slice in 0..SLICES {
        let homes = shrunk.map.homes(slice);
        assert!(homes.contains(&0) && homes.contains(&1), "slice {slice}");
    }
    // Exactly the slices that had the departed member need a copy, and
    // each is sourced from a survivor that held it.
    for slice in 0..SLICES {
        let had_leaver = three.homes(slice).contains(&2);
        let moved = shrunk.moves.iter().any(|m| m.slice == slice);
        assert_eq!(had_leaver, moved, "slice {slice} moved when it need not");
    }
    for m in &shrunk.moves {
        assert!(three.homes(m.slice).contains(&m.source));
        assert_ne!(m.source, 2, "a departed member cannot serve a copy");
    }
}

#[test]
fn a_death_among_three_leaves_every_slice_a_source() {
    // Re-protection is the same call: the member set simply lost one.
    let three = SliceMap::for_members(1, &vec![0, 1, 2]).unwrap();
    for dead in 0..3u8 {
        let survivors: Vec<NodeId> = (0..3u8).filter(|n| *n != dead).collect();
        let after = three.reassigned(2, &survivors).unwrap();
        assert!(
            after.orphaned.is_empty(),
            "a single death cannot orphan a slice at RF=2"
        );
        for m in &after.moves {
            assert_ne!(m.source, dead, "the dead node was asked to serve a copy");
            assert!(three.homes(m.slice).contains(&m.source));
        }
        after.map.validate().unwrap();
    }
}

#[test]
fn losing_both_homes_of_a_slice_is_reported_not_papered_over() {
    // Four members in a ring, then the two that shared a slice both go.
    let four = SliceMap::for_members(1, &vec![0, 1, 2, 3]).unwrap();
    let doomed: Vec<usize> = (0..SLICES)
        .filter(|slice| four.homes(*slice) == [0, 1])
        .collect();
    assert!(!doomed.is_empty(), "expected some slice homed on 0 and 1");

    let after = four.reassigned(2, &vec![2, 3]).unwrap();
    assert_eq!(
        after.orphaned, doomed,
        "the slices whose data is gone must be named"
    );
    // The map stays well-formed, and no move pretends to have a source.
    after.map.validate().unwrap();
    for slice in &doomed {
        assert!(!after.moves.iter().any(|m| m.slice == *slice));
    }
}

#[test]
fn reassigning_to_the_same_members_moves_nothing() {
    for members in [vec![0u8, 1], vec![0, 1, 2], vec![0, 1, 2, 3]] {
        let map = SliceMap::for_members(1, &members).unwrap();
        let again = map.reassigned(2, &members).unwrap();
        assert!(
            again.moves.is_empty(),
            "a no-op reassignment copied data for members {members:?}"
        );
        assert_eq!(again.map.to_pairs(), map.to_pairs());
    }
}

#[test]
fn the_same_inputs_always_give_the_same_map() {
    // Every node computes placement independently; disagreement would
    // put two nodes' idea of "mine" out of step.
    let a = SliceMap::for_members(7, &vec![2, 0, 1]).unwrap();
    let b = SliceMap::for_members(7, &vec![1, 2, 0]).unwrap();
    assert_eq!(a, b, "member order changed the map");
    let grown_once = a.reassigned(8, &vec![0, 1, 2, 3]).unwrap();
    let grown_twice = b.reassigned(8, &vec![3, 2, 1, 0]).unwrap();
    assert_eq!(grown_once, grown_twice);
}

#[test]
fn a_pool_needs_two_members_and_a_rising_version() {
    assert!(SliceMap::for_members(1, &vec![0]).is_err());
    assert!(SliceMap::for_members(1, &vec![]).is_err());
    let map = SliceMap::for_members(5, &vec![0, 1]).unwrap();
    assert!(
        map.reassigned(5, &vec![0, 1, 2]).is_err(),
        "a reassignment at the same version is not orderable"
    );
}

#[test]
fn every_member_count_up_to_eight_stays_balanced_and_valid() {
    let mut previous = SliceMap::for_members(1, &vec![0, 1]).unwrap();
    for n in 3..=8u8 {
        let members: Vec<NodeId> = (0..n).collect();
        SliceMap::for_members(1, &members)
            .unwrap()
            .validate()
            .unwrap();
        // And reached by growth, one member at a time, from two.
        let grown = previous.reassigned(n as u64, &members).unwrap();
        grown.map.validate().unwrap();
        assert!(grown.orphaned.is_empty());
        for m in &grown.moves {
            assert!(
                previous.homes(m.slice).contains(&m.source),
                "a move at {n} members had no real source"
            );
        }
        previous = grown.map;
    }
}
