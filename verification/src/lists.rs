//! Positions in lists, and what stands behind optional ones.

use vstd::prelude::*;

verus! {

/// The positions below `n` that satisfy `p`, in ascending order.
pub open spec fn positions(n: int, p: spec_fn(int) -> bool) -> Seq<int>
    decreases n,
{
    if n <= 0 {
        Seq::empty()
    } else if p(n - 1) {
        positions(n - 1, p).push(n - 1)
    } else {
        positions(n - 1, p)
    }
}

/// The positions are exactly those that satisfy `p`, each once and in ascending order.
pub proof fn positions_are_all(n: int, p: spec_fn(int) -> bool)
    ensures
        forall|k: int|
            0 <= k < positions(n, p).len() ==> 0 <= #[trigger] positions(n, p)[k] < n && p(
                positions(n, p)[k],
            ),
        forall|j: int, k: int|
            0 <= j < k < positions(n, p).len() ==> #[trigger] positions(n, p)[j]
                < #[trigger] positions(n, p)[k],
        forall|i: int| 0 <= i < n && p(i) ==> #[trigger] positions(n, p).contains(i),
    decreases n,
{
    if n > 0 {
        positions_are_all(n - 1, p);
        let all = positions(n, p);
        let rest = positions(n - 1, p);
        assert forall|i: int| 0 <= i < n && p(i) implies #[trigger] all.contains(i) by {
            if i < n - 1 {
                assert(rest.contains(i));
                let k = choose|k: int| 0 <= k < rest.len() && rest[k] == i;
                assert(all[k] == i);
            } else {
                assert(all[all.len() - 1] == i);
            }
        }
    }
}

/// The positions below two bounds, one behind the other, are those of both.
pub proof fn positions_add_up(m: int, n: int, p: spec_fn(int) -> bool)
    requires
        0 <= m,
        0 <= n,
    ensures
        positions(m + n, p) == positions(m, p) + positions(n, |i: int| p(m + i)).map_values(
            |i: int| m + i,
        ),
    decreases n,
{
    let q = |i: int| p(m + i);
    let up = |i: int| m + i;
    if n > 0 {
        positions_add_up(m, n - 1, p);
        assert(p(m + n - 1) == q(n - 1));
        let low = positions(m, p);
        let rest = positions(n - 1, q);
        if q(n - 1) {
            assert(positions(n, q) == rest.push(n - 1));
            assert(rest.push(n - 1).map_values(up) =~= rest.map_values(up).push(m + n - 1));
            assert((low + rest.map_values(up)).push(m + n - 1) =~= low + rest.push(
                n - 1,
            ).map_values(up));
        }
    } else {
        assert(positions(0, q).map_values(up) =~= Seq::<int>::empty());
        assert(positions(m, p) =~= positions(m, p) + Seq::<int>::empty());
    }
}

/// Tests that agree below a bound have the same positions.
pub proof fn lemma_same_positions(n: int, p: spec_fn(int) -> bool, q: spec_fn(int) -> bool)
    requires
        forall|i: int| 0 <= i < n ==> p(i) == #[trigger] q(i),
    ensures
        positions(n, p) == positions(n, q),
    decreases n,
{
    if n > 0 {
        assert(p(n - 1) == q(n - 1));
        lemma_same_positions(n - 1, p, q);
    }
}

/// The first of the positions.
pub open spec fn first(s: Seq<int>) -> Option<int> {
    if s.len() > 0 {
        Some(s[0])
    } else {
        None
    }
}

/// The positions as numbers without a bound.
pub open spec fn ints(s: Seq<usize>) -> Seq<int> {
    s.map_values(|i: usize| i as int)
}

/// The bytes behind an optional vector.
pub open spec fn bytes_of(v: Option<Vec<u8>>) -> Option<Seq<u8>> {
    match v {
        Some(b) => Some(b@),
        None => None,
    }
}

/// The first position is the least one, and there is none where nothing satisfies `p`.
pub proof fn the_first_position_is_the_least(n: int, p: spec_fn(int) -> bool)
    ensures
        match first(positions(n, p)) {
            Some(i) => 0 <= i < n && p(i) && forall|j: int| 0 <= j < i ==> !#[trigger] p(j),
            None => forall|j: int| 0 <= j < n ==> !#[trigger] p(j),
        },
{
    positions_are_all(n, p);
    let all = positions(n, p);
    if all.len() > 0 {
        assert forall|j: int| 0 <= j < all[0] implies !#[trigger] p(j) by {
            if p(j) {
                assert(all.contains(j));
                let k = choose|k: int| 0 <= k < all.len() && all[k] == j;
                assert(all[0] <= all[k]);
            }
        }
    } else {
        assert forall|j: int| 0 <= j < n implies !#[trigger] p(j) by {
            if p(j) {
                assert(all.contains(j));
            }
        }
    }
}

/// The last position is the greatest one, and there is none where nothing satisfies `p`.
pub proof fn the_last_position_is_the_greatest(n: int, p: spec_fn(int) -> bool)
    ensures
        positions(n, p).len() == 0 ==> forall|j: int| 0 <= j < n ==> !#[trigger] p(j),
        positions(n, p).len() > 0 ==> {
            let i = positions(n, p).last();
            0 <= i < n && p(i) && forall|j: int| i < j < n ==> !#[trigger] p(j)
        },
{
    positions_are_all(n, p);
    let all = positions(n, p);
    if all.len() > 0 {
        let last = all[all.len() - 1];
        assert forall|j: int| last < j < n implies !#[trigger] p(j) by {
            if p(j) {
                assert(all.contains(j));
                let k = choose|k: int| 0 <= k < all.len() && all[k] == j;
                assert(all[k] <= last);
            }
        }
    } else {
        assert forall|j: int| 0 <= j < n implies !#[trigger] p(j) by {
            if p(j) {
                assert(all.contains(j));
            }
        }
    }
}

} // verus!
