//! Computing determinant of a square matrix.

use crate::decomp::lu::{lu, lu_with_tolerance, LUDecomposable, LUDecomposition};
use crate::error::{JolinError, JolinErrorKind};
use crate::matrix::{LikeNumber, Matrix, MatrixView};
use vstd::prelude::*;

/// The cycles of a permutation
pub mod cycles;
/// The parity of a permutation
pub mod parity;

verus! {

/// The product of the first `n` diagonal entries, multiplied up from the
/// first in their order.
pub open spec fn diagonal_product_spec<E: LikeNumber>(m: MatrixView<E>, n: nat) -> E
    decreases n,
{
    if n <= 1 {
        m.at(0, 0)
    } else {
        diagonal_product_spec(m, (n - 1) as nat).mul_spec(m.at(n - 1, n - 1))
    }
}

/// How many of the first `n` indices do not hold themselves.
pub open spec fn misplaced(a: Seq<usize>, n: nat) -> nat
    decreases n,
{
    if n == 0 {
        0
    } else {
        misplaced(a, (n - 1) as nat) + if a[n - 1] != n - 1 {
            1nat
        } else {
            0nat
        }
    }
}

/// The least index from `k` on that does not hold itself, or the length.
pub open spec fn first_misplaced(a: Seq<usize>, k: nat) -> nat
    decreases a.len() - k,
{
    if k >= a.len() {
        a.len()
    } else if a[k as int] != k {
        k
    } else {
        first_misplaced(a, k + 1)
    }
}

/// One exchange: the entry at `i` goes to its own place, and what stood
/// there comes to `i`.
pub open spec fn settle(a: Seq<usize>, i: int) -> Seq<usize> {
    let tmp = a[i] as int;
    a.update(i, a[tmp]).update(tmp, a[i])
}

/// `a` holds each of `0..a.len()` exactly once.
pub open spec fn is_permutation(a: Seq<usize>) -> bool {
    crate::decomp::lu::is_permutation(a, a.len())
}

/// The number of exchanges that sort the permutation `a`, where each
/// exchange settles the entry at the least index that does not hold itself.
pub open spec fn swaps_to_sort(a: Seq<usize>) -> nat
    decreases misplaced(a, a.len()),
    when is_permutation(a)
    via swaps_to_sort_decreases
{
    if misplaced(a, a.len()) == 0 {
        0
    } else {
        1 + swaps_to_sort(settle(a, first_misplaced(a, 0) as int))
    }
}

/// Writing `v` at `x` changes the count by what `x` held and what it holds now.
pub proof fn lemma_misplaced_update(a: Seq<usize>, n: nat, x: int, v: usize)
    requires
        0 <= x < a.len(),
        n <= a.len(),
    ensures
        misplaced(a.update(x, v), n) + (if x < n && a[x] != x {
            1nat
        } else {
            0nat
        }) == misplaced(a, n) + (if x < n && v != x {
            1nat
        } else {
            0nat
        }),
    decreases n,
{
    if n > 0 {
        lemma_misplaced_update(a, (n - 1) as nat, x, v);
    }
}

/// No more entries are misplaced than there are.
pub proof fn lemma_misplaced_bound(a: Seq<usize>, n: nat)
    ensures
        misplaced(a, n) <= n,
    decreases n,
{
    if n > 0 {
        lemma_misplaced_bound(a, (n - 1) as nat);
    }
}

/// The least misplaced index is in range and misplaced, when there is one.
pub proof fn lemma_first_misplaced(a: Seq<usize>, k: nat)
    requires
        k <= a.len(),
    ensures
        k <= first_misplaced(a, k) <= a.len(),
        first_misplaced(a, k) < a.len() ==> a[first_misplaced(a, k) as int] != first_misplaced(a, k),
        forall|x: int| k <= x < first_misplaced(a, k) ==> a[x] == x,
    decreases a.len() - k,
{
    if k < a.len() && a[k as int] == k {
        lemma_first_misplaced(a, k + 1);
    }
}

/// A sequence with nothing misplaced holds every index at its place.
pub proof fn lemma_none_misplaced(a: Seq<usize>, n: nat)
    requires
        n <= a.len(),
    ensures
        misplaced(a, n) == 0 <==> (forall|x: int| 0 <= x < n ==> a[x] == x),
    decreases n,
{
    if n > 0 {
        lemma_none_misplaced(a, (n - 1) as nat);
        if misplaced(a, n) == 0 {
            assert forall|x: int| 0 <= x < n implies a[x] == x by {
                if x < n - 1 {
                    assert(a[x] == x);
                }
            }
        }
    }
}

/// Settling a misplaced entry of a permutation gives a permutation with
/// fewer misplaced entries.
pub proof fn lemma_settle(a: Seq<usize>, i: int)
    requires
        is_permutation(a),
        0 <= i < a.len(),
        a[i] != i,
    ensures
        is_permutation(settle(a, i)),
        misplaced(settle(a, i), a.len()) < misplaced(a, a.len()),
        forall|x: int| 0 <= x < a.len() && a[x] == x ==> settle(a, i)[x] == x,
        settle(a, i)[a[i] as int] == a[i],
{
    let n = a.len();
    let tmp = a[i] as int;
    let y = a[tmp];
    assert(y != tmp);
    let b = a.update(i, y);
    lemma_misplaced_update(a, n, i, y);
    lemma_misplaced_update(b, n, tmp, a[i]);
    assert(settle(a, i) == b.update(tmp, a[i]));
    let c = settle(a, i);
    assert forall|x: int, z: int| 0 <= x < z < n implies c[x] != c[z] by {
        assert(a[x] != a[z]);
        if x == i || z == i {
            assert(a[tmp] != a[x] || x == tmp);
            assert(a[tmp] != a[z] || z == tmp);
        }
    }
}

#[via_fn]
proof fn swaps_to_sort_decreases(a: Seq<usize>) {
    if misplaced(a, a.len()) != 0 {
        lemma_first_misplaced(a, 0);
        lemma_none_misplaced(a, a.len());
        let i = first_misplaced(a, 0) as int;
        if i >= a.len() {
            assert(forall|x: int| 0 <= x < a.len() ==> a[x] == x);
        }
        lemma_settle(a, i);
    }
}

/// Given a permutation, compute how many steps of exchanges does it take
/// to reach the permutation.
pub fn permutation_order(p: &Vec<usize>) -> (ans: usize)
    requires
        is_permutation(p@),
    ensures
        ans == swaps_to_sort(p@),
        ans + self::cycles::cycle_count(p@, p@.len()) == p@.len(),
{
    proof {
        self::cycles::lemma_swaps_and_cycles(p@);
    }
    let mut ans: usize = 0;
    let mut a = p.clone();
    let n = p.len();
    proof {
        assert(a@ =~= p@);
        lemma_misplaced_bound(a@, n as nat);
    }
    for i in 0..n
        invariant
            is_permutation(p@),
            n == p@.len(),
            a@.len() == n,
            is_permutation(a@),
            forall|x: int| 0 <= x < i ==> a@[x] == x,
            ans + swaps_to_sort(a@) == swaps_to_sort(p@),
            ans + misplaced(a@, n as nat) <= n,
    {
        while a[i] != i
            invariant
                is_permutation(p@),
                i < n,
                n == p@.len(),
                a@.len() == n,
                is_permutation(a@),
                forall|x: int| 0 <= x < i ==> a@[x] == x,
                ans + swaps_to_sort(a@) == swaps_to_sort(p@),
                ans + misplaced(a@, n as nat) <= n,
            decreases misplaced(a@, n as nat),
        {
            proof {
                lemma_first_misplaced(a@, 0);
                lemma_none_misplaced(a@, n as nat);
                assert(first_misplaced(a@, 0) == i);
                lemma_settle(a@, i as int);
            }
            let ghost before = a@;
            let tmp = a[i];
            let next = a[tmp];
            a.set(i, next);
            a.set(tmp, tmp);
            assert(a@ =~= settle(before, i as int));
            ans = ans + 1;
        }
    }
    proof {
        lemma_none_misplaced(a@, n as nat);
    }
    ans
}

/// The determinant that a decomposition stands for: the product of both
/// diagonals, negated when the permutation takes an odd number of exchanges.
pub open spec fn det_of_factors<E: LikeNumber>(
    l: MatrixView<E>,
    u: MatrixView<E>,
    p: Seq<usize>,
) -> E {
    let detlu = diagonal_product_spec(l, l.rows).mul_spec(diagonal_product_spec(u, u.rows));
    if swaps_to_sort(p) % 2 == 0 {
        detlu
    } else {
        detlu.neg_spec()
    }
}

/// The determinant of a square matrix: the closed form for two rows, else
/// zero where the elimination finds the matrix singular, else the determinant
/// of its factors.
pub open spec fn det_spec<E: LikeNumber>(mat: MatrixView<E>, tol: Option<E>) -> E {
    if mat.rows == 2 {
        det2_spec(mat)
    } else {
        match crate::decomp::lu::lu_model(mat, tol) {
            None => E::zero_spec(),
            Some(s) => det_of_factors(s.l, s.u, s.p),
        }
    }
}

/// What a determinant returns for `mat`: a shape error for a matrix that is
/// not square, else its determinant.
pub open spec fn det_outcome<E: LikeNumber>(
    mat: MatrixView<E>,
    tol: Option<E>,
    res: Result<E, JolinError>,
) -> bool {
    match res {
        Ok(d) => mat.rows == mat.cols && d == det_spec(mat, tol),
        Err(e) => mat.rows != mat.cols && e.spec_kind() == JolinErrorKind::ShapeMismatching,
    }
}

fn diagonal_product<T: Matrix>(mat: &T) -> (ans: T::Elem)
    requires
        mat@.rows == mat@.cols,
        mat@.rows > 0,
    ensures
        ans == diagonal_product_spec(mat@, mat@.rows),
{
    let mut ans = mat.elem(0, 0);
    let n = mat.row();
    for i in 1..n
        invariant
            n == mat@.rows,
            n == mat@.cols,
            ans == diagonal_product_spec(mat@, i as nat),
    {
        ans = ans.mul(mat.elem(i, i));
    }
    ans
}

/// The determinant of the matrix that `lud` decomposes.
pub fn det_from_lu<T: Matrix>(lud: &LUDecomposition<T>) -> (d: T::Elem)
    requires
        lud.l@.rows > 0,
        crate::decomp::lu::lu_well_shaped(*lud, lud.l@.rows),
    ensures
        d == det_of_factors(lud.l@, lud.u@, lud.p@),
{
    let detlu = diagonal_product(&lud.l).mul(diagonal_product(&lud.u));
    if permutation_order(&lud.p) % 2 == 0 {
        detlu
    } else {
        detlu.neg()
    }
}

/// The determinant that the outcome of a decomposition stands for: zero
/// where the matrix was found singular, else the determinant of the factors.
pub open spec fn det_of_outcome<T: Matrix>(decomposed: Result<LUDecomposition<T>, JolinError>) -> T::Elem {
    match decomposed {
        Err(_) => T::Elem::zero_spec(),
        Ok(lud) => det_of_factors(lud.l@, lud.u@, lud.p@),
    }
}

/// The determinant of a matrix, given the outcome of its decomposition: zero
/// where it was found singular, else the determinant of the factors.
pub fn det_of_decomposition<T: Matrix>(decomposed: Result<LUDecomposition<T>, JolinError>) -> (d:
    T::Elem)
    requires
        decomposed matches Ok(lud) ==> lud.l@.rows > 0 && crate::decomp::lu::lu_well_shaped(
            lud,
            lud.l@.rows,
        ),
    ensures
        d == det_of_outcome(decomposed),
{
    match decomposed {
        Err(_err) => T::Elem::zero(),
        Ok(lud) => det_from_lu(&lud),
    }
}

/// The closed form of the determinant of a matrix of two rows and two columns.
pub open spec fn det2_spec<E: LikeNumber>(mat: MatrixView<E>) -> E {
    mat.at(0, 0).mul_spec(mat.at(1, 1)).sub_spec(mat.at(0, 1).mul_spec(mat.at(1, 0)))
}

/// Compute the determinant of the matrix through its own decomposition.
///
/// A singular matrix has the determinant zero. A shape mismatching error will
/// be returned if the matrix is not square.
pub fn det_decomposable<T: LUDecomposable>(mat: &T) -> (res: Result<T::Elem, JolinError>)
    requires
        mat@.rows == mat@.cols ==> mat@.rows > 0,
    ensures
        det_outcome(mat@, T::tolerance_spec(), res),
{
    if mat.row() != mat.column() {
        return Err(JolinError::shape_mismatching());
    }
    if mat.row() == 2 {
        return Ok(mat.elem(0, 0).mul(mat.elem(1, 1)).sub(mat.elem(0, 1).mul(mat.elem(1, 0))));
    }
    let decomposed = T::lu_decomp(mat);
    Ok(det_of_decomposition(decomposed))
}

/// The determinant, with the zero test of the elimination that `tol` selects.
fn det_core<T: Matrix>(mat: &T, tol: Option<T::Elem>) -> (res: Result<T::Elem, JolinError>)
    requires
        mat@.rows == mat@.cols ==> mat@.rows > 0,
    ensures
        det_outcome(mat@, tol, res),
{
    if mat.row() != mat.column() {
        return Err(JolinError::shape_mismatching());
    }
    if mat.row() == 2 {
        return Ok(mat.elem(0, 0).mul(mat.elem(1, 1)).sub(mat.elem(0, 1).mul(mat.elem(1, 0))));
    }
    let decomposed = match tol {
        None => lu(mat),
        Some(eps) => lu_with_tolerance(mat, eps),
    };
    Ok(det_of_decomposition(decomposed))
}

/// Compute the determinant of the matrix
///
/// A singular matrix has the determinant zero. A shape mismatching error will
/// be returned if the matrix is not square.
pub fn det<T: Matrix>(mat: &T) -> (res: Result<T::Elem, JolinError>)
    requires
        mat@.rows == mat@.cols ==> mat@.rows > 0,
    ensures
        det_outcome(mat@, None, res),
{
    det_core(mat, None)
}

/// Compute the determinant of the matrix, with an elimination that takes a
/// magnitude below `eps` for zero.
pub fn det_with_tolerance<T: Matrix>(mat: &T, eps: T::Elem) -> (res: Result<T::Elem, JolinError>)
    requires
        mat@.rows == mat@.cols ==> mat@.rows > 0,
    ensures
        det_outcome(mat@, Some(eps), res),
{
    det_core(mat, Some(eps))
}

} // verus!
