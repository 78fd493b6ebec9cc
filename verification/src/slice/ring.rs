//! The ring a fresh map lays its slices on is always a valid map.

use super::{is_home, is_ring, map_fault, rising, ring_pair, seat_count, target_of, Homes, NodeId, SLICES};
use vstd::prelude::*;

verus! {

/// How many of the first `m` numbers leave `i` when divided by `n`.
spec fn leaving(m: nat, n: int, i: int) -> int
    decreases m,
{
    if m == 0 {
        0
    } else {
        leaving((m - 1) as nat, n, i) + if (m - 1) as int % n == i {
            1int
        } else {
            0int
        }
    }
}

proof fn lemma_leaving(m: nat, n: int, i: int)
    requires
        0 <= i < n,
    ensures
        leaving(m, n, i) == m as int / n + if i < m as int % n {
            1int
        } else {
            0int
        },
    decreases m,
{
    if m == 0 {
        vstd::arithmetic::div_mod::lemma_fundamental_div_mod_converse(0, n, 0, 0);
    } else {
        let k = m - 1;
        lemma_leaving(k as nat, n, i);
        let q = k / n;
        let r = k % n;
        vstd::arithmetic::div_mod::lemma_fundamental_div_mod(k, n);
        vstd::arithmetic::div_mod::lemma_mod_bound(k, n);
        assert(n * q == q * n) by (nonlinear_arith);
        if r == n - 1 {
            assert(m as int == (q + 1) * n + 0) by (nonlinear_arith)
                requires m as int == k + 1, k == q * n + r, r == n - 1;
            vstd::arithmetic::div_mod::lemma_fundamental_div_mod_converse(m as int, n, q + 1, 0);
        } else {
            assert(m as int == q * n + (r + 1));
            vstd::arithmetic::div_mod::lemma_fundamental_div_mod_converse(m as int, n, q, r + 1);
        }
    }
}

/// The member before the `i`-th, round the ring.
spec fn before(n: int, i: int) -> int {
    if i == 0 {
        n - 1
    } else {
        i - 1
    }
}

proof fn lemma_step(n: int, s: int, i: int)
    requires
        n >= 2,
        0 <= s,
        0 <= i < n,
    ensures
        0 <= s % n < n,
        0 <= (s % n + 1) % n < n,
        (s % n + 1) % n == i <==> s % n == before(n, i),
        (s % n + 1) % n != s % n,
{
    vstd::arithmetic::div_mod::lemma_mod_bound(s, n);
    let r = s % n;
    if r + 1 < n {
        vstd::arithmetic::div_mod::lemma_small_mod((r + 1) as nat, n as nat);
    } else {
        vstd::arithmetic::div_mod::lemma_mod_self_0(n);
    }
}

proof fn lemma_seats(slices: Seq<Homes>, members: Seq<NodeId>, i: int, m: nat)
    requires
        rising(members),
        members.len() >= 2,
        is_ring(slices, members),
        0 <= i < members.len(),
        m <= SLICES,
    ensures
        seat_count(slices, members[i], m) == leaving(m, members.len() as int, i) + leaving(m, members.len() as int, before(members.len() as int, i)),
    decreases m,
{
    if m > 0 {
        let n = members.len() as int;
        let s = (m - 1) as int;
        lemma_seats(slices, members, i, (m - 1) as nat);
        lemma_step(n, s, i);
        let (a, b) = ring_pair(members, s % n);
        assert((slices[s]@[0], slices[s]@[1]) == (a, b));
        let x = s % n;
        let y = (x + 1) % n;
        assert(a == members[x] && b == members[y]);
        assert(a == members[i] <==> x == i) by {
            if x < i {
                assert(members[x] < members[i]);
            } else if i < x {
                assert(members[i] < members[x]);
            }
        }
        assert(b == members[i] <==> y == i) by {
            if y < i {
                assert(members[y] < members[i]);
            } else if i < y {
                assert(members[i] < members[y]);
            }
        }
        assert(is_home(slices[s], members[i]) <==> x == i || x == before(n, i));
        assert(before(n, i) != i);
    }
}

/// The seats of a ring are even to within one.
proof fn lemma_even(n: int, i: int)
    requires
        n >= 2,
        0 <= i < n,
    ensures
        -1 <= leaving(256, n, i) + leaving(256, n, before(n, i)) - target_of(n as nat, i) <= 1,
{
    lemma_leaving(256, n, i);
    lemma_leaving(256, n, before(n, i));
    let q = 256int / n;
    let r = 256int % n;
    vstd::arithmetic::div_mod::lemma_fundamental_div_mod(256, n);
    vstd::arithmetic::div_mod::lemma_mod_bound(256, n);
    assert(n * q == q * n) by (nonlinear_arith);
    if 2 * r < n {
        assert(512 == (2 * q) * n + 2 * r) by (nonlinear_arith)
            requires 256 == q * n + r;
        vstd::arithmetic::div_mod::lemma_fundamental_div_mod_converse(512, n, 2 * q, 2 * r);
    } else {
        assert(512 == (2 * q + 1) * n + (2 * r - n)) by (nonlinear_arith)
            requires 256 == q * n + r;
        vstd::arithmetic::div_mod::lemma_fundamental_div_mod_converse(512, n, 2 * q + 1, 2 * r - n);
    }
}

/// The ring over any two members or more is a valid map: every slice has two
/// distinct homes, and the slices are spread evenly.
pub proof fn law_a_ring_is_always_valid(slices: Seq<Homes>, members: Seq<NodeId>)
    requires
        rising(members),
        members.len() >= 2,
        is_ring(slices, members),
    ensures
        map_fault(slices, members) is None,
{
    let n = members.len() as int;
    assert forall|s: int| 0 <= s < slices.len() implies (#[trigger] slices[s])@[0] != slices[s]@[1] by {
        lemma_step(n, s, 0);
        let x = s % n;
        let y = (x + 1) % n;
        assert((slices[s]@[0], slices[s]@[1]) == ring_pair(members, x));
        if x < y {
            assert(members[x] < members[y]);
        } else {
            assert(members[y] < members[x]);
        }
    }
    assert forall|i: int| 0 <= i < members.len() implies ({
        let seats = seat_count(slices, #[trigger] members[i], slices.len()) as int;
        let target = target_of(members.len(), i) as int;
        -1 <= seats - target <= 1
    }) by {
        lemma_seats(slices, members, i, 256);
        lemma_even(n, i);
    }
}

} // verus!
