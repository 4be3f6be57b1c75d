//! The parity of a permutation: why the number of exchanges that sort it is
//! odd exactly when the number of exchanges that made it is.
//!
//! Both are measured against the number of inversions, the pairs of entries
//! that stand in the wrong order: every exchange of two entries changes that
//! number by an odd amount.

use vstd::prelude::*;

verus! {

/// `a` with the entries at `i` and `k` exchanged.
pub open spec fn exchange(a: Seq<usize>, i: int, k: int) -> Seq<usize> {
    a.update(i, a[k]).update(k, a[i])
}

/// How many of the first `m` entries are greater than `v`.
pub open spec fn greater_before(a: Seq<usize>, v: usize, m: nat) -> nat
    decreases m,
{
    if m == 0 {
        0
    } else {
        greater_before(a, v, (m - 1) as nat) + if a[m - 1] > v {
            1nat
        } else {
            0nat
        }
    }
}

/// The number of inversions among the first `m` entries: the pairs of which
/// the earlier entry is the greater.
pub open spec fn inversions(a: Seq<usize>, m: nat) -> nat
    decreases m,
{
    if m == 0 {
        0
    } else {
        inversions(a, (m - 1) as nat) + greater_before(a, a[m - 1], (m - 1) as nat)
    }
}

/// Sequences that agree on their first `m` entries have the same counts there.
pub proof fn lemma_same_prefix(a: Seq<usize>, b: Seq<usize>, v: usize, m: nat)
    requires
        forall|x: int| 0 <= x < m ==> a[x] == b[x],
    ensures
        greater_before(a, v, m) == greater_before(b, v, m),
        inversions(a, m) == inversions(b, m),
    decreases m,
{
    if m > 0 {
        lemma_same_prefix(a, b, v, (m - 1) as nat);
        lemma_same_prefix(a, b, a[m - 1], (m - 1) as nat);
    }
}

/// Writing `w` at `x` changes the count by what `x` held and what it holds now.
pub proof fn lemma_greater_before_update(a: Seq<usize>, v: usize, m: nat, x: int, w: usize)
    requires
        0 <= x < m <= a.len(),
    ensures
        greater_before(a.update(x, w), v, m) + (if a[x] > v {
            1nat
        } else {
            0nat
        }) == greater_before(a, v, m) + (if w > v {
            1nat
        } else {
            0nat
        }),
    decreases m,
{
    if x < m - 1 {
        lemma_greater_before_update(a, v, (m - 1) as nat, x, w);
    } else {
        lemma_same_prefix(a.update(x, w), a, v, (m - 1) as nat);
    }
}

/// Exchanging two of the first `m` entries leaves as many of them greater
/// than `v` as before.
pub proof fn lemma_greater_before_exchange(a: Seq<usize>, v: usize, m: nat, i: int, k: int)
    requires
        0 <= i < m,
        0 <= k < m,
        m <= a.len(),
    ensures
        greater_before(exchange(a, i, k), v, m) == greater_before(a, v, m),
{
    if i == k {
        assert(exchange(a, i, k) =~= a);
    } else {
        let b = a.update(i, a[k]);
        lemma_greater_before_update(a, v, m, i, a[k]);
        lemma_greater_before_update(b, v, m, k, a[i]);
    }
}

/// Exchanging two neighbours changes the number of inversions by one: up if
/// they stood in order, down if they did not.
pub proof fn lemma_neighbours_exchanged(a: Seq<usize>, j: int, m: nat)
    requires
        0 <= j,
        j + 2 <= m <= a.len(),
    ensures
        inversions(exchange(a, j, j + 1), m) + (if a[j] > a[j + 1] {
            1nat
        } else {
            0nat
        }) == inversions(a, m) + (if a[j + 1] > a[j] {
            1nat
        } else {
            0nat
        }),
    decreases m,
{
    let b = exchange(a, j, j + 1);
    if m > j + 2 {
        lemma_neighbours_exchanged(a, j, (m - 1) as nat);
        lemma_greater_before_exchange(a, a[m - 1], (m - 1) as nat, j, j + 1);
    } else {
        lemma_same_prefix(a, b, a[j + 1], j as nat);
        lemma_same_prefix(a, b, a[j], j as nat);
        assert(inversions(b, m) == inversions(b, (j + 1) as nat) + greater_before(
            b,
            b[j + 1],
            (j + 1) as nat,
        ));
        assert(inversions(b, (j + 1) as nat) == inversions(b, j as nat) + greater_before(
            b,
            b[j],
            j as nat,
        ));
        assert(greater_before(b, b[j + 1], (j + 1) as nat) == greater_before(b, b[j + 1], j as nat)
            + if b[j] > b[j + 1] {
            1nat
        } else {
            0nat
        });
        assert(inversions(a, m) == inversions(a, (j + 1) as nat) + greater_before(
            a,
            a[j + 1],
            (j + 1) as nat,
        ));
        assert(inversions(a, (j + 1) as nat) == inversions(a, j as nat) + greater_before(
            a,
            a[j],
            j as nat,
        ));
        assert(greater_before(a, a[j + 1], (j + 1) as nat) == greater_before(a, a[j + 1], j as nat)
            + if a[j] > a[j + 1] {
            1nat
        } else {
            0nat
        });
    }
}

/// Exchanging two entries of a permutation gives a permutation.
pub proof fn lemma_exchange_is_permutation(a: Seq<usize>, i: int, k: int)
    requires
        crate::det::is_permutation(a),
        0 <= i < a.len(),
        0 <= k < a.len(),
    ensures
        crate::det::is_permutation(exchange(a, i, k)),
        exchange(a, i, k).len() == a.len(),
{
    let b = exchange(a, i, k);
    assert forall|x: int, y: int| 0 <= x < y < a.len() implies b[x] != b[y] by {
        let from_x = if x == i {
            k
        } else if x == k {
            i
        } else {
            x
        };
        let from_y = if y == i {
            k
        } else if y == k {
            i
        } else {
            y
        };
        assert(b[x] == a[from_x]);
        assert(b[y] == a[from_y]);
        if from_x < from_y {
            assert(a[from_x] != a[from_y]);
        } else {
            assert(a[from_y] != a[from_x]);
        }
    }
}

/// Exchanging two different entries of a permutation changes the number of
/// inversions by an odd amount.
pub proof fn lemma_exchange_flips_parity(a: Seq<usize>, i: int, k: int)
    requires
        crate::det::is_permutation(a),
        0 <= i < k < a.len(),
    ensures
        (inversions(exchange(a, i, k), a.len()) + inversions(a, a.len())) % 2 == 1,
    decreases k - i,
{
    let n = a.len();
    assert(a[i] != a[k]);
    if k == i + 1 {
        lemma_neighbours_exchanged(a, i, n);
    } else {
        let a1 = exchange(a, i, i + 1);
        let a2 = exchange(a1, i + 1, k);
        let a3 = exchange(a2, i, i + 1);
        assert(a[i] != a[i + 1]);
        lemma_neighbours_exchanged(a, i, n);
        lemma_exchange_is_permutation(a, i, i + 1);
        lemma_exchange_flips_parity(a1, i + 1, k);
        lemma_exchange_is_permutation(a1, i + 1, k);
        assert(a2[i] != a2[i + 1]);
        lemma_neighbours_exchanged(a2, i, n);
        assert(a3 =~= exchange(a, i, k));
    }
}

/// Where every entry holds its own index, none of the first `m` is greater
/// than a value of at least `m - 1`.
pub proof fn lemma_none_greater(a: Seq<usize>, v: usize, m: nat)
    requires
        m <= a.len(),
        forall|x: int| 0 <= x < m ==> a[x] == x,
        v + 1 >= m,
    ensures
        greater_before(a, v, m) == 0,
    decreases m,
{
    if m > 0 {
        lemma_none_greater(a, v, (m - 1) as nat);
    }
}

/// Where every entry holds its own index, nothing is inverted.
pub proof fn lemma_sorted_has_no_inversions(a: Seq<usize>, m: nat)
    requires
        m <= a.len(),
        forall|x: int| 0 <= x < m ==> a[x] == x,
    ensures
        inversions(a, m) == 0,
    decreases m,
{
    if m > 0 {
        lemma_sorted_has_no_inversions(a, (m - 1) as nat);
        lemma_none_greater(a, a[m - 1], (m - 1) as nat);
    }
}

/// The number of exchanges that sort a permutation is odd exactly when the
/// number of its inversions is.
pub proof fn lemma_sorting_parity(a: Seq<usize>)
    requires
        crate::det::is_permutation(a),
    ensures
        crate::det::swaps_to_sort(a) % 2 == inversions(a, a.len()) % 2,
    decreases crate::det::misplaced(a, a.len()),
{
    let n = a.len();
    crate::det::lemma_none_misplaced(a, n);
    if crate::det::misplaced(a, n) == 0 {
        lemma_sorted_has_no_inversions(a, n);
    } else {
        crate::det::lemma_first_misplaced(a, 0);
        let i = crate::det::first_misplaced(a, 0) as int;
        if i >= n {
            assert(forall|x: int| 0 <= x < n ==> a[x] == x);
        }
        crate::det::lemma_settle(a, i);
        let tmp = a[i] as int;
        if tmp < i {
            assert(a[tmp] != a[i]);
        }
        assert(crate::det::settle(a, i) == exchange(a, i, tmp));
        lemma_exchange_flips_parity(a, i, tmp);
        lemma_sorting_parity(crate::det::settle(a, i));
    }
}

/// How many columns of the elimination, from column `i` on, take their pivot
/// from another row than the one in place.
pub open spec fn pivot_exchanges<E: crate::matrix::LikeNumber>(
    s: crate::decomp::lu::LuState<E>,
    i: nat,
    tol: Option<E>,
) -> nat
    decreases s.a.rows - i,
{
    if i >= s.a.rows {
        0
    } else {
        match crate::decomp::lu::lu_step(s, i as int, tol) {
            None => 0,
            Some(next) => pivot_exchanges(next, i + 1, tol) + if crate::decomp::lu::pivot_place(
                s,
                i as int,
            ) != i {
                1nat
            } else {
                0nat
            },
        }
    }
}

/// Along the elimination, the inversions of the permutation change parity
/// with every row that changes places.
pub proof fn lemma_run_parity<E: crate::matrix::LikeNumber>(
    s: crate::decomp::lu::LuState<E>,
    i: nat,
    tol: Option<E>,
)
    requires
        i <= s.a.rows,
        crate::decomp::lu::inverse_permutations(s.p, s.inv_p, s.a.rows),
        crate::decomp::lu::lu_run(s, i, tol) is Some,
    ensures
        ({
            let last = crate::decomp::lu::lu_run(s, i, tol)->Some_0;
            &&& crate::decomp::lu::inverse_permutations(last.p, last.inv_p, s.a.rows)
            &&& (inversions(last.p, s.a.rows) + inversions(s.p, s.a.rows) + pivot_exchanges(
                s,
                i,
                tol,
            )) % 2 == 0
        }),
    decreases s.a.rows - i,
{
    let n = s.a.rows;
    if i < n {
        let next = crate::decomp::lu::lu_step(s, i as int, tol)->Some_0;
        let k = crate::decomp::lu::pivot_place(s, i as int);
        crate::decomp::lu::lemma_argmaxabs_in_range(s.a.col(i as int), n);
        crate::decomp::lu::lemma_step_keeps_inverse(s, i as int);
        crate::decomp::lu::lemma_inverse_is_permutation(s.p, s.inv_p, n);
        assert(0 <= k < n);
        assert(next.p == exchange(s.p, i as int, k));
        if k < i {
            lemma_exchange_flips_parity(s.p, k, i as int);
            assert(exchange(s.p, k, i as int) =~= exchange(s.p, i as int, k));
        } else if k > i {
            lemma_exchange_flips_parity(s.p, i as int, k);
        } else {
            assert(exchange(s.p, i as int, k) =~= s.p);
        }
        lemma_run_parity(next, i + 1, tol);
    }
}

/// The permutation of a decomposition takes an odd number of exchanges to
/// sort exactly when the elimination made an odd number of rows change
/// places: the determinant changes its sign once for each of them.
pub proof fn lemma_sign_counts_row_exchanges<E: crate::matrix::LikeNumber>(
    mat: crate::matrix::MatrixView<E>,
    tol: Option<E>,
)
    requires
        mat.rows <= usize::MAX,
        crate::decomp::lu::lu_model(mat, tol) is Some,
    ensures
        crate::det::swaps_to_sort(crate::decomp::lu::lu_model(mat, tol)->Some_0.p) % 2
            == pivot_exchanges(crate::decomp::lu::lu_start(mat), 0, tol) % 2,
{
    let start = crate::decomp::lu::lu_start(mat);
    let last = crate::decomp::lu::lu_model(mat, tol)->Some_0;
    lemma_run_parity(start, 0, tol);
    lemma_sorted_has_no_inversions(start.p, mat.rows);
    crate::decomp::lu::lemma_inverse_is_permutation(last.p, last.inv_p, mat.rows);
    lemma_sorting_parity(last.p);
}

} // verus!
