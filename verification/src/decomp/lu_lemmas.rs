//! What holds of every LU decomposition, whatever the element type rounds to.
//!
//! The elimination is stated over abstract element operations, so nothing here
//! rests on exact arithmetic unless a lemma asks for it by name.

use crate::decomp::lu::LuState;
use crate::matrix::{LikeNumber, MatrixView};
use vstd::prelude::*;

verus! {

/// Zero passes both zero tests: it is refused as a pivot and never eliminated.
pub open spec fn zero_tests_as_zero<E: LikeNumber>(tol: Option<E>) -> bool {
    &&& crate::decomp::lu::is_negligible(E::zero_spec(), tol)
    &&& !crate::decomp::lu::is_significant(E::zero_spec(), tol)
}

/// What every state of the elimination keeps, before column `i`: the shapes,
/// the two permutations, and that each row already used as a pivot is zero in
/// the working copy.
pub open spec fn state_inv<E: LikeNumber>(s: LuState<E>, i: nat) -> bool {
    let n = s.a.rows;
    &&& i <= n
    &&& crate::decomp::lu::is_square(s.a, n)
    &&& crate::decomp::lu::is_square(s.l, n)
    &&& crate::decomp::lu::is_square(s.u, n)
    &&& crate::decomp::lu::inverse_permutations(s.p, s.inv_p, n)
    &&& forall|r: int, c: int|
        0 <= r < n && 0 <= c < n && s.inv_p[r] < i ==> #[trigger] s.a.at(r, c) == E::zero_spec()
}

/// `l` is the identity on and above its diagonal.
pub open spec fn unit_lower_triangular<E: LikeNumber>(l: MatrixView<E>) -> bool {
    forall|r: int, c: int|
        0 <= r <= c < l.cols && r < l.rows ==> #[trigger] l.at(r, c) == crate::matrix::unit_entry::<
            E,
        >(r, c)
}

/// The entries of the state after one step are what the step functions give.
pub proof fn lemma_step_entries<E: LikeNumber>(s: LuState<E>, i: nat, tol: Option<E>)
    requires
        crate::decomp::lu::lu_step(s, i as int, tol) is Some,
    ensures
        ({
            let n = s.a.rows;
            let next = crate::decomp::lu::lu_step(s, i as int, tol)->Some_0;
            &&& crate::decomp::lu::is_square(next.a, n)
            &&& crate::decomp::lu::is_square(next.l, n)
            &&& crate::decomp::lu::is_square(next.u, n)
            &&& next.p == crate::decomp::lu::step_p(s, i as int)
            &&& next.inv_p == crate::decomp::lu::step_inv_p(s, i as int)
            &&& !crate::decomp::lu::is_negligible(
                s.a.at(crate::decomp::lu::pivot_row(s, i as int), i as int),
                tol,
            )
            &&& forall|r: int, c: int|
                0 <= r < n && 0 <= c < n ==> #[trigger] next.a.at(r, c)
                    == crate::decomp::lu::step_a_entry(s, i as int, tol, r, c)
            &&& forall|r: int, c: int|
                0 <= r < n && 0 <= c < n ==> #[trigger] next.l.at(r, c)
                    == crate::decomp::lu::step_l_entry(s, i as int, tol, r, c)
            &&& forall|r: int, c: int|
                0 <= r < n && 0 <= c < n ==> #[trigger] next.u.at(r, c)
                    == crate::decomp::lu::step_u_entry(s, i as int, r, c)
        }),
{
    let n = s.a.rows;
    crate::matrix::lemma_from_fn_entries(
        n,
        n,
        |r: int, c: int| crate::decomp::lu::step_a_entry(s, i as int, tol, r, c),
    );
    crate::matrix::lemma_from_fn_entries(
        n,
        n,
        |r: int, c: int| crate::decomp::lu::step_l_entry(s, i as int, tol, r, c),
    );
    crate::matrix::lemma_from_fn_entries(
        n,
        n,
        |r: int, c: int| crate::decomp::lu::step_u_entry(s, i as int, r, c),
    );
}

/// The pivot of column `i` is a row that has not been a pivot before.
pub proof fn lemma_pivot_is_fresh<E: LikeNumber>(s: LuState<E>, i: nat, tol: Option<E>)
    requires
        state_inv(s, i),
        i < s.a.rows,
        zero_tests_as_zero(tol),
        crate::decomp::lu::lu_step(s, i as int, tol) is Some,
    ensures
        0 <= crate::decomp::lu::pivot_row(s, i as int) < s.a.rows,
        i <= crate::decomp::lu::pivot_place(s, i as int) < s.a.rows,
        s.p[crate::decomp::lu::pivot_place(s, i as int)] == crate::decomp::lu::pivot_row(s, i as int),
{
    let n = s.a.rows;
    crate::decomp::lu::lemma_argmaxabs_in_range(s.a.col(i as int), n);
    let piv = crate::decomp::lu::pivot_row(s, i as int);
    assert(s.inv_p[piv] < n);
    if s.inv_p[piv] < i {
        assert(s.a.at(piv, i as int) == E::zero_spec());
    }
}

/// One step keeps what every state keeps.
pub proof fn lemma_step_keeps_inv<E: LikeNumber>(s: LuState<E>, i: nat, tol: Option<E>)
    requires
        state_inv(s, i),
        i < s.a.rows,
        zero_tests_as_zero(tol),
        crate::decomp::lu::lu_step(s, i as int, tol) is Some,
    ensures
        state_inv(crate::decomp::lu::lu_step(s, i as int, tol)->Some_0, i + 1),
        crate::decomp::lu::lu_step(s, i as int, tol)->Some_0.a.rows == s.a.rows,
{
    let n = s.a.rows;
    let next = crate::decomp::lu::lu_step(s, i as int, tol)->Some_0;
    let piv = crate::decomp::lu::pivot_row(s, i as int);
    let k = crate::decomp::lu::pivot_place(s, i as int);
    lemma_step_entries(s, i, tol);
    lemma_pivot_is_fresh(s, i, tol);
    crate::decomp::lu::lemma_step_keeps_inverse(s, i as int);
    assert forall|r: int, c: int|
        0 <= r < n && 0 <= c < n && next.inv_p[r] < i + 1 implies #[trigger] next.a.at(r, c)
        == E::zero_spec() by {
        if r != piv {
            assert(s.inv_p[s.p[i as int] as int] == i);
            assert(s.inv_p[r] < i);
            assert(s.a.at(r, c) == E::zero_spec());
            assert(s.a.at(r, i as int) == E::zero_spec());
        }
        assert(crate::decomp::lu::cleared_a_entry(s, i as int, r, i as int) == E::zero_spec());
    }
}

/// One step leaves the lower factor the identity on and above its diagonal.
pub proof fn lemma_step_keeps_unit_lower<E: LikeNumber>(s: LuState<E>, i: nat, tol: Option<E>)
    requires
        state_inv(s, i),
        i < s.a.rows,
        zero_tests_as_zero(tol),
        unit_lower_triangular(s.l),
        crate::decomp::lu::lu_step(s, i as int, tol) is Some,
    ensures
        unit_lower_triangular(crate::decomp::lu::lu_step(s, i as int, tol)->Some_0.l),
{
    let n = s.a.rows;
    let next = crate::decomp::lu::lu_step(s, i as int, tol)->Some_0;
    let piv = crate::decomp::lu::pivot_row(s, i as int);
    let k = crate::decomp::lu::pivot_place(s, i as int);
    lemma_step_entries(s, i, tol);
    lemma_pivot_is_fresh(s, i, tol);
    lemma_step_keeps_inv(s, i, tol);
    assert forall|x: int, c: int| 0 <= x <= c < next.l.cols && x < next.l.rows implies #[trigger] next.l.at(
        x,
        c,
    ) == crate::matrix::unit_entry::<E>(x, c) by {
        let r = next.p[x] as int;
        assert(next.inv_p[r] == x);
        if c == i {
            assert(next.a.at(r, i as int) == E::zero_spec());
            if r != piv {
                assert(s.inv_p[s.p[i as int] as int] == i);
                assert(s.inv_p[r] < i);
                assert(s.a.at(r, i as int) == E::zero_spec());
            }
            assert(crate::decomp::lu::cleared_a_entry(s, i as int, r, i as int) == E::zero_spec());
        }
        assert(s.l.at(x, c) == crate::matrix::unit_entry::<E>(x, c));
    }
}

/// The state the elimination starts from keeps what every state keeps, and
/// its lower factor is the identity.
pub proof fn lemma_start<E: LikeNumber>(mat: MatrixView<E>)
    requires
        mat.wf(),
        mat.rows == mat.cols,
        mat.rows <= usize::MAX,
    ensures
        state_inv(crate::decomp::lu::lu_start(mat), 0),
        unit_lower_triangular(crate::decomp::lu::lu_start(mat).l),
        forall|r: int, c: int|
            0 <= r < mat.rows && 0 <= c < mat.rows ==> #[trigger] crate::decomp::lu::lu_start(
                mat,
            ).u.at(r, c) == E::zero_spec(),
{
    let n = mat.rows;
    crate::matrix::lemma_from_fn_entries(n, n, |r: int, c: int| E::zero_spec());
    crate::matrix::lemma_from_fn_entries(
        n,
        n,
        |r: int, c: int| crate::matrix::unit_entry::<E>(r, c),
    );
}

/// The rest of the elimination keeps what every state keeps.
pub proof fn lemma_run_keeps_unit_lower<E: LikeNumber>(s: LuState<E>, i: nat, tol: Option<E>)
    requires
        state_inv(s, i),
        zero_tests_as_zero(tol),
        unit_lower_triangular(s.l),
        crate::decomp::lu::lu_run(s, i, tol) is Some,
    ensures
        state_inv(crate::decomp::lu::lu_run(s, i, tol)->Some_0, s.a.rows),
        crate::decomp::lu::lu_run(s, i, tol)->Some_0.a.rows == s.a.rows,
        unit_lower_triangular(crate::decomp::lu::lu_run(s, i, tol)->Some_0.l),
    decreases s.a.rows - i,
{
    if i < s.a.rows {
        let next = crate::decomp::lu::lu_step(s, i as int, tol)->Some_0;
        lemma_step_keeps_inv(s, i, tol);
        lemma_step_keeps_unit_lower(s, i, tol);
        lemma_run_keeps_unit_lower(next, i + 1, tol);
    }
}

/// The lower factor of every decomposition has the unit on its diagonal and
/// zero above it, provided only that zero passes the zero tests.
pub proof fn lemma_lu_lower_factor<E: LikeNumber>(mat: MatrixView<E>, tol: Option<E>)
    requires
        mat.wf(),
        mat.rows == mat.cols,
        mat.rows <= usize::MAX,
        zero_tests_as_zero(tol),
        crate::decomp::lu::lu_model(mat, tol) is Some,
    ensures
        unit_lower_triangular(crate::decomp::lu::lu_model(mat, tol)->Some_0.l),
        crate::decomp::lu::is_square(crate::decomp::lu::lu_model(mat, tol)->Some_0.l, mat.rows),
        crate::decomp::lu::is_square(crate::decomp::lu::lu_model(mat, tol)->Some_0.u, mat.rows),
        crate::decomp::lu::is_permutation(crate::decomp::lu::lu_model(mat, tol)->Some_0.p, mat.rows),
{
    lemma_start(mat);
    lemma_run_keeps_unit_lower(crate::decomp::lu::lu_start(mat), 0, tol);
    let fin = crate::decomp::lu::lu_model(mat, tol)->Some_0;
    crate::decomp::lu::lemma_inverse_is_permutation(fin.p, fin.inv_p, mat.rows);
}

/// Elimination leaves nothing behind: taking `x / y` times `y` from `x`
/// gives a value that no longer counts as significant.
pub open spec fn elimination_is_exact<E: LikeNumber>(tol: Option<E>) -> bool {
    forall|x: E, y: E|
        crate::decomp::lu::is_significant(x, tol) && !crate::decomp::lu::is_negligible(y, tol)
            ==> !crate::decomp::lu::is_significant(
            x.sub_spec((#[trigger] x.div_spec(y)).mul_spec(y)),
            tol,
        )
}

/// Nothing significant stands below the diagonal of `u`.
pub open spec fn upper_triangular<E: LikeNumber>(u: MatrixView<E>, tol: Option<E>) -> bool {
    forall|r: int, c: int|
        0 <= c < r < u.rows && c < u.cols ==> !crate::decomp::lu::is_significant(
            #[trigger] u.at(r, c),
            tol,
        )
}

/// Nothing significant is left in the first `i` columns of the working copy.
pub open spec fn columns_done<E: LikeNumber>(a: MatrixView<E>, i: nat, tol: Option<E>) -> bool {
    forall|r: int, c: int|
        0 <= r < a.rows && 0 <= c < i && c < a.cols ==> !crate::decomp::lu::is_significant(
            #[trigger] a.at(r, c),
            tol,
        )
}

/// One step finishes column `i` and keeps the upper factor triangular.
pub proof fn lemma_step_keeps_upper<E: LikeNumber>(s: LuState<E>, i: nat, tol: Option<E>)
    requires
        state_inv(s, i),
        i < s.a.rows,
        zero_tests_as_zero(tol),
        elimination_is_exact(tol),
        columns_done(s.a, i, tol),
        upper_triangular(s.u, tol),
        crate::decomp::lu::lu_step(s, i as int, tol) is Some,
    ensures
        columns_done(crate::decomp::lu::lu_step(s, i as int, tol)->Some_0.a, i + 1, tol),
        upper_triangular(crate::decomp::lu::lu_step(s, i as int, tol)->Some_0.u, tol),
{
    let n = s.a.rows;
    let next = crate::decomp::lu::lu_step(s, i as int, tol)->Some_0;
    let piv = crate::decomp::lu::pivot_row(s, i as int);
    lemma_step_entries(s, i, tol);
    lemma_pivot_is_fresh(s, i, tol);
    let y = s.a.at(piv, i as int);
    assert forall|r: int, c: int|
        0 <= r < next.a.rows && 0 <= c < i + 1 && c < next.a.cols
        implies !crate::decomp::lu::is_significant(#[trigger] next.a.at(r, c), tol) by {
        if c < i {
            assert(!crate::decomp::lu::is_significant(s.a.at(r, c), tol));
        } else if crate::decomp::lu::eliminates(s, i as int, r, tol) {
            let x = s.a.at(r, i as int);
            assert(r != piv);
            assert(next.a.at(r, c) == x.sub_spec(x.div_spec(y).mul_spec(y)));
        }
    }
    assert forall|r: int, c: int|
        0 <= c < r < next.u.rows && c < next.u.cols implies !crate::decomp::lu::is_significant(
        #[trigger] next.u.at(r, c),
        tol,
    ) by {
        if r == i {
            assert(!crate::decomp::lu::is_significant(s.a.at(piv, c), tol));
        } else {
            assert(!crate::decomp::lu::is_significant(s.u.at(r, c), tol));
        }
    }
}

/// The rest of the elimination keeps the upper factor triangular.
pub proof fn lemma_run_keeps_upper<E: LikeNumber>(s: LuState<E>, i: nat, tol: Option<E>)
    requires
        state_inv(s, i),
        zero_tests_as_zero(tol),
        elimination_is_exact(tol),
        columns_done(s.a, i, tol),
        upper_triangular(s.u, tol),
        crate::decomp::lu::lu_run(s, i, tol) is Some,
    ensures
        upper_triangular(crate::decomp::lu::lu_run(s, i, tol)->Some_0.u, tol),
    decreases s.a.rows - i,
{
    if i < s.a.rows {
        let next = crate::decomp::lu::lu_step(s, i as int, tol)->Some_0;
        lemma_step_keeps_inv(s, i, tol);
        lemma_step_keeps_upper(s, i, tol);
        lemma_run_keeps_upper(next, i + 1, tol);
    }
}

/// The upper factor of every decomposition holds nothing significant below
/// its diagonal, for an element type whose elimination is exact.
pub proof fn lemma_lu_upper_factor<E: LikeNumber>(mat: MatrixView<E>, tol: Option<E>)
    requires
        mat.wf(),
        mat.rows == mat.cols,
        mat.rows <= usize::MAX,
        zero_tests_as_zero(tol),
        elimination_is_exact(tol),
        crate::decomp::lu::lu_model(mat, tol) is Some,
    ensures
        upper_triangular(crate::decomp::lu::lu_model(mat, tol)->Some_0.u, tol),
{
    lemma_start(mat);
    lemma_run_keeps_upper(crate::decomp::lu::lu_start(mat), 0, tol);
}

/// Whatever is not refused as a pivot is worth eliminating.
pub open spec fn zero_tests_agree<E: LikeNumber>(tol: Option<E>) -> bool {
    forall|x: E|
        !(#[trigger] crate::decomp::lu::is_negligible(x, tol)) ==> crate::decomp::lu::is_significant(
            x,
            tol,
        )
}

/// Taking a row from itself leaves zero: for a pivot `x`, `y - (x / x) * y`
/// is zero.
pub open spec fn row_cancels_itself<E: LikeNumber>(tol: Option<E>) -> bool {
    forall|x: E, y: E|
        !crate::decomp::lu::is_negligible(x, tol) ==> y.sub_spec(
            #[trigger] x.div_spec(x).mul_spec(y),
        ) == E::zero_spec()
}

/// Row `r` has not been a pivot, and is zero from column `i` on.
pub open spec fn is_spent<E: LikeNumber>(s: LuState<E>, i: nat, r: int) -> bool {
    &&& 0 <= r < s.a.rows
    &&& s.inv_p[r] >= i
    &&& forall|c: int| i <= c < s.a.rows ==> #[trigger] s.a.at(r, c) == E::zero_spec()
}

/// Rows `r1` and `r2` are different rows of the working copy with the same
/// entries, and neither has been a pivot.
pub open spec fn are_twins<E: LikeNumber>(s: LuState<E>, i: nat, r1: int, r2: int) -> bool {
    &&& 0 <= r1 < s.a.rows
    &&& 0 <= r2 < s.a.rows
    &&& r1 != r2
    &&& s.inv_p[r1] >= i
    &&& s.inv_p[r2] >= i
    &&& forall|c: int| 0 <= c < s.a.rows ==> #[trigger] s.a.at(r1, c) == s.a.at(r2, c)
}

/// A row other than the pivot that has not been a pivot is none after the step.
pub proof fn lemma_other_row_stays_fresh<E: LikeNumber>(
    s: LuState<E>,
    i: nat,
    tol: Option<E>,
    r: int,
)
    requires
        state_inv(s, i),
        i < s.a.rows,
        zero_tests_as_zero(tol),
        crate::decomp::lu::lu_step(s, i as int, tol) is Some,
        0 <= r < s.a.rows,
        s.inv_p[r] >= i,
        r != crate::decomp::lu::pivot_row(s, i as int),
    ensures
        crate::decomp::lu::lu_step(s, i as int, tol)->Some_0.inv_p[r] >= i + 1,
{
    let next = crate::decomp::lu::lu_step(s, i as int, tol)->Some_0;
    let k = crate::decomp::lu::pivot_place(s, i as int);
    lemma_step_entries(s, i, tol);
    lemma_pivot_is_fresh(s, i, tol);
    crate::decomp::lu::lemma_step_keeps_inverse(s, i as int);
    assert(s.p[s.inv_p[r] as int] == r);
    assert(s.inv_p[s.p[i as int] as int] == i);
}

/// An elimination with a spent row cannot end: it runs out of pivots.
pub proof fn lemma_spent_row_fails<E: LikeNumber>(s: LuState<E>, i: nat, tol: Option<E>, r: int)
    requires
        state_inv(s, i),
        zero_tests_as_zero(tol),
        is_spent(s, i, r),
    ensures
        crate::decomp::lu::lu_run(s, i, tol) is None,
    decreases s.a.rows - i,
{
    let n = s.a.rows;
    assert(s.inv_p[r] < n);
    if crate::decomp::lu::lu_step(s, i as int, tol) is Some {
        let next = crate::decomp::lu::lu_step(s, i as int, tol)->Some_0;
        lemma_step_entries(s, i, tol);
        lemma_pivot_is_fresh(s, i, tol);
        lemma_step_keeps_inv(s, i, tol);
        assert(s.a.at(r, i as int) == E::zero_spec());
        lemma_other_row_stays_fresh(s, i, tol, r);
        assert forall|c: int| i + 1 <= c < next.a.rows implies #[trigger] next.a.at(r, c)
            == E::zero_spec() by {
            assert(s.a.at(r, c) == E::zero_spec());
        }
        lemma_spent_row_fails(next, i + 1, tol, r);
    }
}

/// An elimination with two equal rows cannot end: once one of them is the
/// pivot, the other is spent.
pub proof fn lemma_twin_rows_fail<E: LikeNumber>(
    s: LuState<E>,
    i: nat,
    tol: Option<E>,
    r1: int,
    r2: int,
)
    requires
        state_inv(s, i),
        zero_tests_as_zero(tol),
        zero_tests_agree(tol),
        row_cancels_itself(tol),
        are_twins(s, i, r1, r2),
    ensures
        crate::decomp::lu::lu_run(s, i, tol) is None,
    decreases s.a.rows - i,
{
    let n = s.a.rows;
    assert(s.inv_p[r1] < n);
    if crate::decomp::lu::lu_step(s, i as int, tol) is Some {
        let next = crate::decomp::lu::lu_step(s, i as int, tol)->Some_0;
        let piv = crate::decomp::lu::pivot_row(s, i as int);
        lemma_step_entries(s, i, tol);
        lemma_pivot_is_fresh(s, i, tol);
        lemma_step_keeps_inv(s, i, tol);
        let x = s.a.at(piv, i as int);
        if piv == r1 || piv == r2 {
            let other = if piv == r1 {
                r2
            } else {
                r1
            };
            lemma_other_row_stays_fresh(s, i, tol, other);
            assert(s.a.at(r1, i as int) == s.a.at(r2, i as int));
            assert(crate::decomp::lu::is_significant(x, tol));
            assert forall|c: int| i + 1 <= c < next.a.rows implies #[trigger] next.a.at(other, c)
                == E::zero_spec() by {
                let y = s.a.at(other, c);
                assert(s.a.at(r1, c) == s.a.at(r2, c));
                assert(next.a.at(other, c) == y.sub_spec(x.div_spec(x).mul_spec(y)));
            }
            lemma_spent_row_fails(next, i + 1, tol, other);
        } else {
            lemma_other_row_stays_fresh(s, i, tol, r1);
            lemma_other_row_stays_fresh(s, i, tol, r2);
            assert(s.a.at(r1, i as int) == s.a.at(r2, i as int));
            assert forall|c: int| 0 <= c < next.a.rows implies #[trigger] next.a.at(r1, c)
                == next.a.at(r2, c) by {
                assert(s.a.at(r1, c) == s.a.at(r2, c));
            }
            lemma_twin_rows_fail(next, i + 1, tol, r1, r2);
        }
    }
}

/// A square matrix with two equal rows is found singular, for an element
/// type whose zero tests agree and in which a row cancels itself.
pub proof fn lemma_equal_rows_are_singular<E: LikeNumber>(
    mat: MatrixView<E>,
    tol: Option<E>,
    r1: int,
    r2: int,
)
    requires
        mat.wf(),
        mat.rows == mat.cols,
        mat.rows <= usize::MAX,
        zero_tests_as_zero(tol),
        zero_tests_agree(tol),
        row_cancels_itself(tol),
        0 <= r1 < mat.rows,
        0 <= r2 < mat.rows,
        r1 != r2,
        forall|c: int| 0 <= c < mat.cols ==> #[trigger] mat.at(r1, c) == mat.at(r2, c),
    ensures
        crate::decomp::lu::lu_model(mat, tol) is None,
{
    lemma_start(mat);
    lemma_twin_rows_fail(crate::decomp::lu::lu_start(mat), 0, tol, r1, r2);
}

/// Magnitudes are ordered: of two, not both are greater than the other, and
/// "not greater than" carries over a third.
pub open spec fn magnitudes_are_ordered<E: LikeNumber>() -> bool {
    &&& forall|x: E, y: E| #[trigger] x.gt_spec(y) ==> !y.gt_spec(x)
    &&& forall|x: E, y: E, z: E|
        !(#[trigger] y.gt_spec(x)) && !(#[trigger] z.gt_spec(y)) ==> !z.gt_spec(x)
}

/// The scan for a pivot keeps an entry of the greatest magnitude: none of the
/// entries it has seen is greater in magnitude than the one it keeps.
pub proof fn lemma_argmaxabs_is_greatest<E: LikeNumber>(s: Seq<E>, n: nat)
    requires
        magnitudes_are_ordered::<E>(),
    ensures
        forall|j: int|
            0 <= j < n ==> !(#[trigger] s[j]).abs_spec().gt_spec(
                s[crate::decomp::lu::argmaxabs_spec(s, n) as int].abs_spec(),
            ),
    decreases n,
{
    if n > 1 {
        lemma_argmaxabs_is_greatest(s, (n - 1) as nat);
        let before = crate::decomp::lu::argmaxabs_spec(s, (n - 1) as nat) as int;
        let best = crate::decomp::lu::argmaxabs_spec(s, n) as int;
        let kept = s[best].abs_spec();
        assert forall|j: int| 0 <= j < n implies !(#[trigger] s[j]).abs_spec().gt_spec(kept) by {
            if best != before && j < n - 1 {
                let mid = s[before].abs_spec();
                assert(kept.gt_spec(mid));
                assert(!mid.gt_spec(kept));
                assert(!s[j].abs_spec().gt_spec(mid));
            }
        }
    } else if n == 1 {
        let only = s[0].abs_spec();
        if only.gt_spec(only) {
            assert(!only.gt_spec(only));
        }
    }
}

} // verus!
