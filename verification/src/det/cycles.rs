//! The cycles of a permutation, and why sorting it by exchanges takes as many
//! exchanges as it has entries, less one for each cycle.

use vstd::prelude::*;

verus! {

/// Where `x` is after following the permutation `k` times.
pub open spec fn iterate(a: Seq<usize>, x: int, k: nat) -> int
    decreases k,
{
    if k == 0 {
        x
    } else {
        a[iterate(a, x, (k - 1) as nat)] as int
    }
}

/// `x` is the least index of its cycle: no smaller index reaches it by
/// following the permutation.
pub open spec fn leads_cycle(a: Seq<usize>, x: int) -> bool {
    forall|y: int, k: nat| 0 <= y < x ==> #[trigger] iterate(a, y, k) != x
}

/// The number of cycles whose least index is below `m`.
pub open spec fn cycle_count(a: Seq<usize>, m: nat) -> nat
    decreases m,
{
    if m == 0 {
        0
    } else {
        cycle_count(a, (m - 1) as nat) + if leads_cycle(a, m - 1) {
            1nat
        } else {
            0nat
        }
    }
}

/// Following a permutation never leaves its range.
pub proof fn lemma_iterate_in_range(a: Seq<usize>, x: int, k: nat)
    requires
        crate::det::is_permutation(a),
        0 <= x < a.len(),
    ensures
        0 <= iterate(a, x, k) < a.len(),
    decreases k,
{
    if k > 0 {
        lemma_iterate_in_range(a, x, (k - 1) as nat);
    }
}

/// One step first and `k` steps after is `k + 1` steps.
pub proof fn lemma_iterate_shift(a: Seq<usize>, x: int, k: nat)
    ensures
        iterate(a, x, k + 1) == iterate(a, a[x] as int, k),
    decreases k,
{
    assert(iterate(a, x, k + 1) == a[iterate(a, x, k)]);
    if k > 0 {
        lemma_iterate_shift(a, x, (k - 1) as nat);
        assert(iterate(a, a[x] as int, k) == a[iterate(a, a[x] as int, (k - 1) as nat)]);
    } else {
        assert(iterate(a, x, 0) == x);
    }
}

/// An index that holds itself is never left.
pub proof fn lemma_iterate_fixed(a: Seq<usize>, x: int, k: nat)
    requires
        a[x] == x,
    ensures
        iterate(a, x, k) == x,
    decreases k,
{
    if k > 0 {
        lemma_iterate_fixed(a, x, (k - 1) as nat);
    }
}

/// In a permutation, an index that holds itself is reached from nowhere else.
pub proof fn lemma_fixed_is_not_reached(a: Seq<usize>, x: int, y: int, k: nat)
    requires
        crate::det::is_permutation(a),
        0 <= x < a.len(),
        0 <= y < a.len(),
        a[x] == x,
        y != x,
    ensures
        iterate(a, y, k) != x,
    decreases k,
{
    if k > 0 {
        lemma_fixed_is_not_reached(a, x, y, (k - 1) as nat);
        lemma_iterate_in_range(a, y, (k - 1) as nat);
        let z = iterate(a, y, (k - 1) as nat);
        if z < x {
            assert(a[z] != a[x]);
        } else {
            assert(a[x] != a[z]);
        }
    }
}

/// Where every index below `m` leads its cycle, there are `m` cycles below `m`.
pub proof fn lemma_all_lead(a: Seq<usize>, m: nat)
    requires
        forall|x: int| 0 <= x < m ==> leads_cycle(a, x),
    ensures
        cycle_count(a, m) == m,
    decreases m,
{
    if m > 0 {
        lemma_all_lead(a, (m - 1) as nat);
    }
}

/// What settling the entry at `i` needs: a permutation in which every index
/// below `i` holds itself and `i` does not.
pub open spec fn can_settle(a: Seq<usize>, i: int) -> bool {
    &&& crate::det::is_permutation(a)
    &&& 0 <= i < a.len()
    &&& a[i] != i
    &&& forall|x: int| 0 <= x < i ==> a[x] == x
}

/// What settling changes: `i` now holds what its entry held, the entry holds
/// itself, and the entry lies above `i`.
pub proof fn lemma_settle_entries(a: Seq<usize>, i: int)
    requires
        can_settle(a, i),
    ensures
        i < a[i] < a.len(),
        crate::det::is_permutation(crate::det::settle(a, i)),
        crate::det::settle(a, i).len() == a.len(),
        crate::det::settle(a, i)[a[i] as int] == a[i],
        crate::det::settle(a, i)[i] == a[a[i] as int],
        forall|z: int|
            0 <= z < a.len() && z != i && z != a[i] ==> #[trigger] crate::det::settle(a, i)[z] == a[z],
        forall|z: int| 0 <= z < a.len() && a[z] == a[i] ==> z == i,
{
    crate::det::lemma_settle(a, i);
    let tmp = a[i] as int;
    if tmp < i {
        assert(a[tmp] != a[i]);
    }
    assert forall|z: int| 0 <= z < a.len() && a[z] == a[i] implies z == i by {
        if z < i {
            assert(a[z] != a[i]);
        } else if z > i {
            assert(a[i] != a[z]);
        }
    }
}

/// A path of the permutation that does not end at the settled entry is a
/// path after settling too: it merely no longer passes through that entry.
pub proof fn lemma_path_survives(a: Seq<usize>, i: int, y: int, k: nat) -> (k2: nat)
    requires
        can_settle(a, i),
        0 <= y < a.len(),
        y != a[i],
        iterate(a, y, k) != a[i],
    ensures
        iterate(crate::det::settle(a, i), y, k2) == iterate(a, y, k),
    decreases k,
{
    let b = crate::det::settle(a, i);
    let tmp = a[i] as int;
    lemma_settle_entries(a, i);
    if k == 0 {
        0
    } else {
        let z = iterate(a, y, (k - 1) as nat);
        lemma_iterate_in_range(a, y, (k - 1) as nat);
        if z != tmp {
            let k1 = lemma_path_survives(a, i, y, (k - 1) as nat);
            assert(z != i);
            assert(b[z] == a[z]);
            k1 + 1
        } else {
            assert(k >= 2);
            let before = iterate(a, y, (k - 2) as nat);
            lemma_iterate_in_range(a, y, (k - 2) as nat);
            assert(a[before] == a[i]);
            assert(before == i);
            let k1 = lemma_path_survives(a, i, y, (k - 2) as nat);
            k1 + 1
        }
    }
}

/// A path after settling is a path of the permutation before: the step from
/// `i` takes two steps there.
pub proof fn lemma_path_was_there(a: Seq<usize>, i: int, y: int, k: nat) -> (k2: nat)
    requires
        can_settle(a, i),
        0 <= y < a.len(),
        y != a[i],
    ensures
        iterate(a, y, k2) == iterate(crate::det::settle(a, i), y, k),
        iterate(crate::det::settle(a, i), y, k) != a[i],
    decreases k,
{
    let b = crate::det::settle(a, i);
    let tmp = a[i] as int;
    lemma_settle_entries(a, i);
    lemma_fixed_is_not_reached(b, tmp, y, k);
    if k == 0 {
        0
    } else {
        let k1 = lemma_path_was_there(a, i, y, (k - 1) as nat);
        let z = iterate(b, y, (k - 1) as nat);
        lemma_iterate_in_range(b, y, (k - 1) as nat);
        if z == i {
            assert(iterate(a, y, k1 + 1) == tmp);
            assert(iterate(a, y, k1 + 2) == a[tmp]);
            k1 + 2
        } else {
            assert(b[z] == a[z]);
            k1 + 1
        }
    }
}

/// Settling leaves every index but the settled entry leading its cycle, or
/// not, as before; the settled entry led none and now leads its own.
pub proof fn lemma_settle_leaders(a: Seq<usize>, i: int, x: int)
    requires
        can_settle(a, i),
        0 <= x < a.len(),
    ensures
        x != a[i] ==> (leads_cycle(crate::det::settle(a, i), x) <==> leads_cycle(a, x)),
        x == a[i] ==> leads_cycle(crate::det::settle(a, i), x) && !leads_cycle(a, x),
{
    let b = crate::det::settle(a, i);
    let tmp = a[i] as int;
    lemma_settle_entries(a, i);
    if x == tmp {
        assert(iterate(a, i, 1) == a[iterate(a, i, 0)]);
        assert(iterate(a, i, 1) == tmp);
        assert forall|y: int, k: nat| 0 <= y < x implies #[trigger] iterate(b, y, k) != x by {
            lemma_fixed_is_not_reached(b, tmp, y, k);
        }
    } else {
        if leads_cycle(a, x) {
            assert forall|y: int, k: nat| 0 <= y < x implies #[trigger] iterate(b, y, k) != x by {
                if y == tmp {
                    lemma_iterate_fixed(b, tmp, k);
                } else {
                    let k2 = lemma_path_was_there(a, i, y, k);
                    assert(iterate(a, y, k2) != x);
                }
            }
        }
        if leads_cycle(b, x) {
            assert forall|y: int, k: nat| 0 <= y < x implies #[trigger] iterate(a, y, k) != x by {
                if iterate(a, y, k) == x {
                    if y == tmp {
                        lemma_iterate_shift(a, i, k);
                        assert(iterate(a, i, k + 1) == x);
                        let k2 = lemma_path_survives(a, i, i, k + 1);
                        assert(iterate(b, i, k2) != x);
                    } else {
                        let k2 = lemma_path_survives(a, i, y, k);
                        assert(iterate(b, y, k2) != x);
                    }
                }
            }
        }
    }
}

/// Settling an entry makes one cycle more: the entry's own.
pub proof fn lemma_settle_adds_cycle(a: Seq<usize>, i: int, m: nat)
    requires
        can_settle(a, i),
        m <= a.len(),
    ensures
        cycle_count(crate::det::settle(a, i), m) == cycle_count(a, m) + (if a[i] < m {
            1nat
        } else {
            0nat
        }),
    decreases m,
{
    if m > 0 {
        lemma_settle_adds_cycle(a, i, (m - 1) as nat);
        lemma_settle_leaders(a, i, m - 1);
    }
}

/// Sorting a permutation takes as many exchanges as it has entries, less one
/// for each of its cycles.
pub proof fn lemma_swaps_and_cycles(a: Seq<usize>)
    requires
        crate::det::is_permutation(a),
    ensures
        crate::det::swaps_to_sort(a) + cycle_count(a, a.len()) == a.len(),
    decreases crate::det::misplaced(a, a.len()),
{
    let n = a.len();
    crate::det::lemma_none_misplaced(a, n);
    if crate::det::misplaced(a, n) == 0 {
        assert forall|x: int| 0 <= x < n implies leads_cycle(a, x) by {
            assert forall|y: int, k: nat| 0 <= y < x implies #[trigger] iterate(a, y, k) != x by {
                lemma_iterate_fixed(a, y, k);
            }
        }
        lemma_all_lead(a, n);
    } else {
        crate::det::lemma_first_misplaced(a, 0);
        let i = crate::det::first_misplaced(a, 0) as int;
        if i >= n {
            assert(forall|x: int| 0 <= x < n ==> a[x] == x);
        }
        assert(can_settle(a, i));
        crate::det::lemma_settle(a, i);
        lemma_settle_entries(a, i);
        lemma_settle_adds_cycle(a, i, n);
        lemma_swaps_and_cycles(crate::det::settle(a, i));
    }
}

} // verus!
