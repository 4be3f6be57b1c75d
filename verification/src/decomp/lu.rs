//! LU decomposition with row-max pivoting.

use crate::error::{JolinError, JolinErrorKind};
use crate::matrix::{LikeNumber, Matrix, MatrixView};
use vstd::prelude::*;

verus! {

/// The answer of LU decomposition
pub struct LUDecomposition<T: Matrix> {
    /// Lower triangular matrix
    pub l: T,
    /// Upper triangular matrix
    pub u: T,
    /// Permutation index
    pub p: Vec<usize>,
}

/// What the elimination has reached before it takes on the next column.
pub struct LuState<E> {
    /// The working copy of the input; rows already moved to `u` are zero.
    pub a: MatrixView<E>,
    /// The lower factor so far.
    pub l: MatrixView<E>,
    /// The upper factor so far.
    pub u: MatrixView<E>,
    /// `p[i]` is the input row that stands in row `i` of the factors.
    pub p: Seq<usize>,
    /// `inv_p[x]` is the place of input row `x` in `p`.
    pub inv_p: Seq<usize>,
}

/// Whether `x` counts as zero when a pivot is tested: without a tolerance it
/// must compare equal to zero, with a tolerance its magnitude must be below it.
pub open spec fn is_negligible<E: LikeNumber>(x: E, tol: Option<E>) -> bool {
    match tol {
        None => x.eq_spec(E::zero_spec()),
        Some(eps) => x.abs_spec().lt_spec(eps),
    }
}

/// Whether `x` is worth eliminating: without a tolerance it must compare
/// unequal to zero, with a tolerance its magnitude must reach it.
pub open spec fn is_significant<E: LikeNumber>(x: E, tol: Option<E>) -> bool {
    match tol {
        None => !x.eq_spec(E::zero_spec()),
        Some(eps) => x.abs_spec().ge_spec(eps),
    }
}

/// The index, among the first `n` of `s`, that a left-to-right scan keeps: it
/// moves on only to an entry of strictly greater magnitude.
pub open spec fn argmaxabs_spec<E: LikeNumber>(s: Seq<E>, n: nat) -> nat
    decreases n,
{
    if n <= 1 {
        0
    } else {
        let best = argmaxabs_spec(s, (n - 1) as nat);
        if s[n - 1].abs_spec().gt_spec(s[best as int].abs_spec()) {
            (n - 1) as nat
        } else {
            best
        }
    }
}

/// The scan stays inside what it has seen.
pub proof fn lemma_argmaxabs_in_range<E: LikeNumber>(s: Seq<E>, n: nat)
    ensures
        n > 0 ==> argmaxabs_spec(s, n) < n,
        n == 0 ==> argmaxabs_spec(s, n) == 0,
    decreases n,
{
    if n > 1 {
        lemma_argmaxabs_in_range(s, (n - 1) as nat);
    }
}

/// `p` and `inv_p` are permutations of `0..n`, and each undoes the other.
pub open spec fn inverse_permutations(p: Seq<usize>, inv_p: Seq<usize>, n: nat) -> bool {
    &&& p.len() == n
    &&& inv_p.len() == n
    &&& forall|x: int| 0 <= x < n ==> (#[trigger] p[x]) < n && inv_p[p[x] as int] == x
    &&& forall|y: int| 0 <= y < n ==> (#[trigger] inv_p[y]) < n && p[inv_p[y] as int] == y
}

/// `p` holds each of `0..n` exactly once.
pub open spec fn is_permutation(p: Seq<usize>, n: nat) -> bool {
    &&& p.len() == n
    &&& forall|x: int| 0 <= x < n ==> (#[trigger] p[x]) < n
    &&& forall|x: int, y: int| 0 <= x < y < n ==> p[x] != p[y]
}

/// The row of the working copy that becomes pivot of column `i`.
pub open spec fn pivot_row<E: LikeNumber>(s: LuState<E>, i: int) -> int {
    argmaxabs_spec(s.a.col(i), s.a.rows) as int
}

/// The place in `p` of the pivot row of column `i`.
pub open spec fn pivot_place<E: LikeNumber>(s: LuState<E>, i: int) -> int {
    s.inv_p[pivot_row(s, i)] as int
}

/// `p` after the pivot of column `i` has changed places with row `i`.
pub open spec fn step_p<E: LikeNumber>(s: LuState<E>, i: int) -> Seq<usize> {
    let k = pivot_place(s, i);
    s.p.update(i, s.p[k]).update(k, s.p[i])
}

/// `inv_p` after the pivot of column `i` has changed places with row `i`.
pub open spec fn step_inv_p<E: LikeNumber>(s: LuState<E>, i: int) -> Seq<usize> {
    let k = pivot_place(s, i);
    s.inv_p.update(s.p[k] as int, i as usize).update(s.p[i] as int, k as usize)
}

/// An entry of `l` after rows `i` and the pivot's place have changed places
/// in the columns before `i`.
pub open spec fn swapped_l_entry<E: LikeNumber>(s: LuState<E>, i: int, r: int, c: int) -> E {
    let k = pivot_place(s, i);
    if c < i && r == i {
        s.l.at(k, c)
    } else if c < i && r == k {
        s.l.at(i, c)
    } else {
        s.l.at(r, c)
    }
}

/// An entry of `u` after the pivot row has become its row `i`.
pub open spec fn step_u_entry<E: LikeNumber>(s: LuState<E>, i: int, r: int, c: int) -> E {
    if r == i {
        s.a.at(pivot_row(s, i), c)
    } else {
        s.u.at(r, c)
    }
}

/// An entry of the working copy after the pivot row has been cleared.
pub open spec fn cleared_a_entry<E: LikeNumber>(s: LuState<E>, i: int, r: int, c: int) -> E {
    if r == pivot_row(s, i) {
        E::zero_spec()
    } else {
        s.a.at(r, c)
    }
}

/// The multiple of the pivot row that is taken from row `r` in column `i`.
pub open spec fn ratio<E: LikeNumber>(s: LuState<E>, i: int, r: int) -> E {
    cleared_a_entry(s, i, r, i).div_spec(step_u_entry(s, i, i, i))
}

/// Whether row `r` still has something to eliminate in column `i`.
pub open spec fn eliminates<E: LikeNumber>(s: LuState<E>, i: int, r: int, tol: Option<E>) -> bool {
    is_significant(cleared_a_entry(s, i, r, i), tol)
}

/// An entry of the working copy after column `i` has been eliminated.
pub open spec fn step_a_entry<E: LikeNumber>(
    s: LuState<E>,
    i: int,
    tol: Option<E>,
    r: int,
    c: int,
) -> E {
    if c >= i && eliminates(s, i, r, tol) {
        cleared_a_entry(s, i, r, c).sub_spec(ratio(s, i, r).mul_spec(step_u_entry(s, i, i, c)))
    } else {
        cleared_a_entry(s, i, r, c)
    }
}

/// An entry of `l` after column `i` has been eliminated: row `x` of `l`
/// belongs to input row `step_p(s, i)[x]`.
pub open spec fn step_l_entry<E: LikeNumber>(
    s: LuState<E>,
    i: int,
    tol: Option<E>,
    x: int,
    c: int,
) -> E {
    let r = step_p(s, i)[x] as int;
    if c == i && eliminates(s, i, r, tol) {
        ratio(s, i, r)
    } else {
        swapped_l_entry(s, i, x, c)
    }
}

/// One step of the elimination, on column `i`: `None` if no row offers a
/// pivot, else the state after the column has been eliminated.
pub open spec fn lu_step<E: LikeNumber>(s: LuState<E>, i: int, tol: Option<E>) -> Option<LuState<E>> {
    let n = s.a.rows;
    if is_negligible(s.a.at(pivot_row(s, i), i), tol) {
        None
    } else {
        Some(
            LuState {
                a: MatrixView::from_fn(n, n, |r: int, c: int| step_a_entry(s, i, tol, r, c)),
                l: MatrixView::from_fn(n, n, |r: int, c: int| step_l_entry(s, i, tol, r, c)),
                u: MatrixView::from_fn(n, n, |r: int, c: int| step_u_entry(s, i, r, c)),
                p: step_p(s, i),
                inv_p: step_inv_p(s, i),
            },
        )
    }
}

/// The elimination from column `i` on.
pub open spec fn lu_run<E: LikeNumber>(s: LuState<E>, i: nat, tol: Option<E>) -> Option<LuState<E>>
    decreases s.a.rows - i,
{
    if i >= s.a.rows {
        Some(s)
    } else {
        match lu_step(s, i as int, tol) {
            None => None,
            Some(next) => lu_run(next, i + 1, tol),
        }
    }
}

/// The state the elimination starts from.
pub open spec fn lu_start<E: LikeNumber>(mat: MatrixView<E>) -> LuState<E> {
    LuState {
        a: mat,
        l: crate::matrix::identity_view::<E>(mat.rows),
        u: crate::matrix::zero_view::<E>(mat.rows, mat.rows),
        p: Seq::new(mat.rows, |x: int| x as usize),
        inv_p: Seq::new(mat.rows, |x: int| x as usize),
    }
}

/// The decomposition of a square matrix: `None` if some column offers no
/// pivot, else the state after the last column.
pub open spec fn lu_model<E: LikeNumber>(mat: MatrixView<E>, tol: Option<E>) -> Option<LuState<E>> {
    lu_run(lu_start(mat), 0, tol)
}

/// `m` is a well-formed `n` by `n` matrix.
pub open spec fn is_square<E>(m: MatrixView<E>, n: nat) -> bool {
    m.wf() && m.rows == n && m.cols == n
}

/// What a decomposition returns for `mat`: a shape error for a matrix that is
/// not square, a singularity error where the elimination finds a column
/// without a pivot, and else the factors and the permutation that the
/// elimination ends with.
pub open spec fn lu_outcome<T: Matrix>(
    mat: MatrixView<T::Elem>,
    tol: Option<T::Elem>,
    res: Result<LUDecomposition<T>, JolinError>,
) -> bool {
    match res {
        Ok(d) => {
            &&& mat.rows == mat.cols
            &&& lu_model(mat, tol) matches Some(s) && d.l@ == s.l && d.u@ == s.u && d.p@ == s.p
        },
        Err(e) => if mat.rows != mat.cols {
            e.spec_kind() == JolinErrorKind::ShapeMismatching
        } else {
            e.spec_kind() == JolinErrorKind::SingularMatrix && lu_model(mat, tol) is None
        },
    }
}

/// Both factors are `n` by `n`, and `p` holds each row of `0..n` once.
pub open spec fn lu_well_shaped<T: Matrix>(d: LUDecomposition<T>, n: nat) -> bool {
    &&& is_square(d.l@, n)
    &&& is_square(d.u@, n)
    &&& is_permutation(d.p@, n)
}

/// Each of two sequences that undo one another is a permutation.
pub proof fn lemma_inverse_is_permutation(p: Seq<usize>, inv_p: Seq<usize>, n: nat)
    requires
        inverse_permutations(p, inv_p, n),
    ensures
        is_permutation(p, n),
        is_permutation(inv_p, n),
{
    assert forall|x: int, y: int| 0 <= x < y < n implies p[x] != p[y] by {
        assert(inv_p[p[x] as int] == x);
        assert(inv_p[p[y] as int] == y);
    }
    assert forall|x: int, y: int| 0 <= x < y < n implies inv_p[x] != inv_p[y] by {
        assert(p[inv_p[x] as int] == x);
        assert(p[inv_p[y] as int] == y);
    }
}

// Get the index of the element of maximal absolute value
fn argmaxabs<E: LikeNumber>(elems: &[E]) -> (ans: usize)
    ensures
        ans == argmaxabs_spec(elems@, elems@.len()),
{
    if elems.len() == 0 {
        return 0;
    }
    let mut ans = 0usize;
    for i in 1..elems.len()
        invariant
            ans == argmaxabs_spec(elems@, i as nat),
            ans < i,
    {
        if elems[i].abs().is_gt(&elems[ans].abs()) {
            ans = i;
        }
    }
    ans
}

fn negligible<E: LikeNumber>(x: E, tol: Option<E>) -> (b: bool)
    ensures
        b == is_negligible(x, tol),
{
    match tol {
        None => x.is_eq(&E::zero()),
        Some(eps) => x.abs().is_lt(&eps),
    }
}

fn significant<E: LikeNumber>(x: E, tol: Option<E>) -> (b: bool)
    ensures
        b == is_significant(x, tol),
{
    match tol {
        None => !x.is_eq(&E::zero()),
        Some(eps) => x.abs().is_ge(&eps),
    }
}

/// The rows `0..n` in their own order.
fn identity_permutation(n: usize) -> (p: Vec<usize>)
    ensures
        p@ == Seq::new(n as nat, |x: int| x as usize),
{
    let mut p: Vec<usize> = Vec::new();
    for i in 0..n
        invariant
            p@ == Seq::new(i as nat, |x: int| x as usize),
    {
        p.push(i);
        assert(p@ =~= Seq::new((i + 1) as nat, |x: int| x as usize));
    }
    p
}

/// Changing the places of two rows keeps `p` and `inv_p` inverse to each other.
pub proof fn lemma_step_keeps_inverse<E: LikeNumber>(s: LuState<E>, i: int)
    requires
        inverse_permutations(s.p, s.inv_p, s.a.rows),
        0 <= i < s.a.rows,
        0 <= pivot_row(s, i) < s.a.rows,
    ensures
        inverse_permutations(step_p(s, i), step_inv_p(s, i), s.a.rows),
        step_p(s, i)[i] == pivot_row(s, i),
        step_inv_p(s, i)[pivot_row(s, i)] == i,
{
    let n = s.a.rows;
    let piv = pivot_row(s, i);
    let k = pivot_place(s, i);
    let swapped_p = step_p(s, i);
    let swapped_inv = step_inv_p(s, i);
    assert(s.p[k] == piv);
    assert(0 <= k < n);
    assert forall|x: int| 0 <= x < n implies (#[trigger] swapped_p[x]) < n && swapped_inv[swapped_p[x] as int] == x by {
        let y = s.p[x];
        assert(s.inv_p[y as int] == x);
        if x != i && x != k {
            assert(s.inv_p[s.p[k] as int] == k);
            assert(s.inv_p[s.p[i] as int] == i);
        }
    }
    assert forall|y: int| 0 <= y < n implies (#[trigger] swapped_inv[y]) < n && swapped_p[swapped_inv[y] as int] == y by {
        let x = s.inv_p[y];
        assert(s.p[x as int] == y);
    }
}

/// The elimination proper, with the zero test that `tol` selects.
fn lu_core<T: Matrix>(mat: &T, tol: Option<T::Elem>) -> (res: Result<LUDecomposition<T>, JolinError>)
    ensures
        lu_outcome(mat@, tol, res),
        res matches Ok(d) ==> lu_well_shaped(d, mat@.rows),
{
    if mat.row() != mat.column() {
        // Square matrix is required
        return Err(JolinError::shape_mismatching());
    }
    // We will operate on a copy of the matrix
    let n = mat.row();
    let entries = mat.data();
    proof {
        assert(entries@.len() == entries.len());
    }
    let mut a = T::new(n, n, entries);
    let mut p: Vec<usize> = identity_permutation(n);
    let mut inv_p: Vec<usize> = identity_permutation(n);
    let mut l: T = T::identity(n);
    let mut u: T = T::zero(n, n);
    proof {
        crate::matrix::lemma_from_fn_entries(
            n as nat,
            n as nat,
            |r: int, c: int| T::Elem::zero_spec(),
        );
        crate::matrix::lemma_from_fn_entries(
            n as nat,
            n as nat,
            |r: int, c: int| crate::matrix::unit_entry::<T::Elem>(r, c),
        );
        assert(a@ == mat@);
    }

    // eliminate column i
    for i in 0..n
        invariant
            n == mat@.rows,
            n == mat@.cols,
            is_square(a@, n as nat),
            is_square(l@, n as nat),
            is_square(u@, n as nat),
            inverse_permutations(p@, inv_p@, n as nat),
            lu_model(mat@, tol) == lu_run(
                LuState { a: a@, l: l@, u: u@, p: p@, inv_p: inv_p@ },
                i as nat,
                tol,
            ),
    {
        let ghost s = LuState { a: a@, l: l@, u: u@, p: p@, inv_p: inv_p@ };
        // find the row with maximal element at column i
        let pivot_row_in_a = argmaxabs(a.data_column(i));
        proof {
            lemma_argmaxabs_in_range(a@.col(i as int), n as nat);
            assert(pivot_row_in_a == pivot_row(s, i as int));
        }
        if negligible(a.elem(pivot_row_in_a, i), tol) {
            return Err(JolinError::singular_matrix());
        }
        let pivot_row_in_pa = inv_p[pivot_row_in_a];
        {
            let idx1 = p[i];
            let idx2 = p[pivot_row_in_pa];
            p.set(i, idx2);
            p.set(pivot_row_in_pa, idx1);
            inv_p.set(idx2, i);
            inv_p.set(idx1, pivot_row_in_pa);
            proof {
                lemma_step_keeps_inverse(s, i as int);
                assert(p@ == step_p(s, i as int));
                assert(inv_p@ == step_inv_p(s, i as int));
            }

            // swap row of pivot_row_in_pa with row i in matrix L
            for c in 0..i
                invariant
                    i < n,
                    pivot_row_in_pa < n,
                    pivot_row_in_pa == pivot_place(s, i as int),
                    is_square(s.l, n as nat),
                    is_square(l@, n as nat),
                    forall|r: int, cc: int|
                        0 <= r < n && 0 <= cc < n ==> #[trigger] l@.at(r, cc) == (if cc < c {
                            swapped_l_entry(s, i as int, r, cc)
                        } else {
                            s.l.at(r, cc)
                        }),
            {
                let v1 = l.elem(i, c);
                let v2 = l.elem(pivot_row_in_pa, c);
                let ghost l0 = l@;
                l.set_elem(i, c, v2);
                let ghost l1 = l@;
                l.set_elem(pivot_row_in_pa, c, v1);
                proof {
                    crate::matrix::lemma_set_entries(l0, i as int, c as int, v2);
                    crate::matrix::lemma_set_entries(l1, pivot_row_in_pa as int, c as int, v1);
                }
            }
        }

        // move row of pivot from A to U
        {
            for c in 0..n
                invariant
                    i < n,
                    pivot_row_in_a < n,
                    pivot_row_in_a == pivot_row(s, i as int),
                    is_square(s.a, n as nat),
                    is_square(s.u, n as nat),
                    is_square(a@, n as nat),
                    is_square(u@, n as nat),
                    forall|r: int, cc: int|
                        0 <= r < n && 0 <= cc < n ==> #[trigger] u@.at(r, cc) == (if cc < c {
                            step_u_entry(s, i as int, r, cc)
                        } else {
                            s.u.at(r, cc)
                        }),
                    forall|r: int, cc: int|
                        0 <= r < n && 0 <= cc < n ==> #[trigger] a@.at(r, cc) == (if cc < c {
                            cleared_a_entry(s, i as int, r, cc)
                        } else {
                            s.a.at(r, cc)
                        }),
            {
                let ghost u0 = u@;
                let ghost a0 = a@;
                u.set_elem(i, c, a.elem(pivot_row_in_a, c));
                a.set_elem(pivot_row_in_a, c, T::Elem::zero());
                proof {
                    crate::matrix::lemma_set_entries(
                        u0,
                        i as int,
                        c as int,
                        a0.at(pivot_row_in_a as int, c as int),
                    );
                    crate::matrix::lemma_set_entries(
                        a0,
                        pivot_row_in_a as int,
                        c as int,
                        T::Elem::zero_spec(),
                    );
                }
            }
        }
        for r in 0..n
            invariant
                i < n,
                is_square(a@, n as nat),
                is_square(l@, n as nat),
                is_square(u@, n as nat),
                inverse_permutations(p@, inv_p@, n as nat),
                p@ == step_p(s, i as int),
                forall|rr: int, cc: int|
                    0 <= rr < n && 0 <= cc < n ==> #[trigger] u@.at(rr, cc) == step_u_entry(
                        s,
                        i as int,
                        rr,
                        cc,
                    ),
                forall|rr: int, cc: int|
                    0 <= rr < n && 0 <= cc < n ==> #[trigger] a@.at(rr, cc) == (if rr < r {
                        step_a_entry(s, i as int, tol, rr, cc)
                    } else {
                        cleared_a_entry(s, i as int, rr, cc)
                    }),
                forall|x: int, cc: int|
                    0 <= x < n && 0 <= cc < n ==> #[trigger] l@.at(x, cc) == (if p@[x] < r {
                        step_l_entry(s, i as int, tol, x, cc)
                    } else {
                        swapped_l_entry(s, i as int, x, cc)
                    }),
        {
            // eliminate row r in A with ith row of U[i]
            if significant(a.elem(r, i), tol) {
                let ratio = a.elem(r, i).div(u.elem(i, i));
                for c in i..n
                    invariant
                        i < n,
                        r < n,
                        is_square(a@, n as nat),
                        is_square(u@, n as nat),
                        ratio == crate::decomp::lu::ratio(s, i as int, r as int),
                        eliminates(s, i as int, r as int, tol),
                        forall|rr: int, cc: int|
                            0 <= rr < n && 0 <= cc < n ==> #[trigger] u@.at(rr, cc) == step_u_entry(
                                s,
                                i as int,
                                rr,
                                cc,
                            ),
                        forall|rr: int, cc: int|
                            0 <= rr < n && 0 <= cc < n ==> #[trigger] a@.at(rr, cc) == (if rr < r
                                || (rr == r && cc < c) {
                                step_a_entry(s, i as int, tol, rr, cc)
                            } else {
                                cleared_a_entry(s, i as int, rr, cc)
                            }),
                {
                    let previous = a.elem(r, c);
                    let ghost a0 = a@;
                    let value = previous.sub(ratio.mul(u.elem(i, c)));
                    a.set_elem(r, c, value);
                    proof {
                        crate::matrix::lemma_set_entries(a0, r as int, c as int, value);
                    }
                }
                let ghost l0 = l@;
                l.set_elem(inv_p[r], i, ratio);
                proof {
                    crate::matrix::lemma_set_entries(l0, inv_p@[r as int] as int, i as int, ratio);
                }
            }
        }
        proof {
            let next = LuState { a: a@, l: l@, u: u@, p: p@, inv_p: inv_p@ };
            let step = lu_step(s, i as int, tol);
            crate::matrix::lemma_from_fn_entries(
                n as nat,
                n as nat,
                |r: int, c: int| step_a_entry(s, i as int, tol, r, c),
            );
            crate::matrix::lemma_from_fn_entries(
                n as nat,
                n as nat,
                |r: int, c: int| step_l_entry(s, i as int, tol, r, c),
            );
            crate::matrix::lemma_from_fn_entries(
                n as nat,
                n as nat,
                |r: int, c: int| step_u_entry(s, i as int, r, c),
            );
            crate::matrix::lemma_view_ext(a@, step->Some_0.a);
            crate::matrix::lemma_view_ext(l@, step->Some_0.l);
            crate::matrix::lemma_view_ext(u@, step->Some_0.u);
            assert(step == Some(next));
        }
    }
    proof {
        lemma_inverse_is_permutation(p@, inv_p@, n as nat);
    }
    Ok(LUDecomposition { l, u, p })
}

/// General LU decomposition. The answer will be a `LUDecomposition` struct.
///
/// Row-max pivoting is adopted. The row with maximal absolute value on the
/// column to be eliminated will be used as the pivot. A pivot is refused, and
/// an entry left alone, when it compares equal to zero.
///
/// Potential errors:
/// 1. Shape mismatching - if the matrix is not square.
/// 2. Singular matrix - if the matrix is singular
pub fn lu<T: Matrix>(mat: &T) -> (res: Result<LUDecomposition<T>, JolinError>)
    ensures
        lu_outcome(mat@, None, res),
        res matches Ok(d) ==> lu_well_shaped(d, mat@.rows),
{
    lu_core(mat, None)
}

/// LU decomposition with a tolerance: a pivot is refused when its magnitude
/// is below `eps`, and an entry is eliminated when its magnitude reaches `eps`.
///
/// Potential errors:
/// 1. Shape mismatching - if the matrix is not square.
/// 2. Singular matrix - if the matrix is singular
pub fn lu_with_tolerance<T: Matrix>(mat: &T, eps: T::Elem) -> (res: Result<
    LUDecomposition<T>,
    JolinError,
>)
    ensures
        lu_outcome(mat@, Some(eps), res),
        res matches Ok(d) ==> lu_well_shaped(d, mat@.rows),
{
    lu_core(mat, Some(eps))
}

/// Trait to provide type-specific LU decomposition, which comes with better
/// performance and stability.
///
/// An implementation chooses the tolerance of its zero test to suit its
/// element type; with that tolerance it returns what the general elimination
/// returns.
pub trait LUDecomposable: Matrix {
    /// The tolerance of the zero test: `None` where a pivot is refused only
    /// when it compares equal to zero.
    spec fn tolerance_spec() -> Option<Self::Elem>;

    /// Perform LU decomposition. The answer will be a `LUDecomposition` struct
    /// through a type specific implementation.
    ///
    /// Potential errors:
    /// 1. Shape mismatching - if the matrix is not square.
    /// 2. Singular matrix - if the matrix is singular
    fn lu_decomp(mat: &Self) -> (res: Result<LUDecomposition<Self>, JolinError>)
        ensures
            lu_outcome(mat@, Self::tolerance_spec(), res),
            res matches Ok(d) ==> lu_well_shaped(d, mat@.rows),
    ;
}

} // verus!
