//! What holds of an LU decomposition when the element type is an exact field:
//! the factors multiply back to the input with its rows permuted.
//!
//! Rounding arithmetic does not meet `is_exact_field`; there the factors
//! reproduce the input only up to rounding, which no lemma here speaks of.

use crate::decomp::lu::LuState;
use crate::matrix::{LikeNumber, MatrixView};
use vstd::prelude::*;

verus! {

/// The element operations are those of a field, and `eq_spec` is equality.
#[verifier::opaque]
pub open spec fn is_exact_field<E: LikeNumber>() -> bool {
    &&& forall|x: E, y: E| #[trigger] x.add_spec(y) == y.add_spec(x)
    &&& forall|x: E, y: E, z: E| #[trigger] x.add_spec(y).add_spec(z) == x.add_spec(y.add_spec(z))
    &&& forall|x: E| #[trigger] x.add_spec(E::zero_spec()) == x
    &&& forall|x: E| #[trigger] x.add_spec(x.neg_spec()) == E::zero_spec()
    &&& forall|x: E, y: E| #[trigger] x.sub_spec(y) == x.add_spec(y.neg_spec())
    &&& forall|x: E| #[trigger] E::one_spec().mul_spec(x) == x
    &&& forall|x: E| #[trigger] E::zero_spec().mul_spec(x) == E::zero_spec()
    &&& forall|x: E| #[trigger] x.mul_spec(E::zero_spec()) == E::zero_spec()
    &&& forall|x: E, y: E, z: E| #[trigger] x.mul_spec(y).mul_spec(z) == x.mul_spec(y.mul_spec(z))
    &&& forall|x: E, y: E, z: E| #[trigger]
        x.mul_spec(y.sub_spec(z)) == x.mul_spec(y).sub_spec(x.mul_spec(z))
    &&& forall|x: E, y: E| !y.eq_spec(E::zero_spec()) ==> #[trigger] x.div_spec(y).mul_spec(y) == x
    &&& forall|x: E, y: E| !y.eq_spec(E::zero_spec()) ==> #[trigger] x.mul_spec(y).div_spec(y) == x
    &&& forall|x: E, y: E| #[trigger] x.eq_spec(y) <==> x == y
}

/// In a field, adding `t` to one term and taking it from the other leaves
/// the sum as it was.
pub proof fn lemma_add_then_take<E: LikeNumber>(d: E, t: E, a: E)
    requires
        is_exact_field::<E>(),
    ensures
        d.add_spec(t).add_spec(a.sub_spec(t)) == d.add_spec(a),
{
    reveal(is_exact_field);
    let nt = t.neg_spec();
    assert(a.sub_spec(t) == a.add_spec(nt));
    assert(d.add_spec(t).add_spec(a.add_spec(nt)) == d.add_spec(t.add_spec(a.add_spec(nt))));
    assert(a.add_spec(nt) == nt.add_spec(a));
    assert(t.add_spec(nt).add_spec(a) == t.add_spec(nt.add_spec(a)));
    assert(t.add_spec(nt) == E::zero_spec());
    assert(E::zero_spec().add_spec(a) == a.add_spec(E::zero_spec()));
}

/// In a field, a number less itself is zero.
pub proof fn lemma_take_itself<E: LikeNumber>(x: E)
    requires
        is_exact_field::<E>(),
    ensures
        x.sub_spec(x) == E::zero_spec(),
{
    reveal(is_exact_field);
    assert(x.sub_spec(x) == x.add_spec(x.neg_spec()));
}

/// In a field, zero and the unit are units, and zero annihilates.
pub proof fn lemma_units<E: LikeNumber>(x: E)
    requires
        is_exact_field::<E>(),
    ensures
        x.add_spec(E::zero_spec()) == x,
        E::zero_spec().add_spec(x) == x,
        E::one_spec().mul_spec(x) == x,
        E::zero_spec().mul_spec(x) == E::zero_spec(),
        x.mul_spec(E::zero_spec()) == E::zero_spec(),
{
    reveal(is_exact_field);
    assert(E::zero_spec().add_spec(x) == x.add_spec(E::zero_spec()));
}

/// In a field, dividing by a number other than zero is undone by
/// multiplying with it.
pub proof fn lemma_division<E: LikeNumber>(x: E, y: E)
    requires
        is_exact_field::<E>(),
        !y.eq_spec(E::zero_spec()),
    ensures
        x.div_spec(y).mul_spec(y) == x,
{
    reveal(is_exact_field);
}

/// In a field, multiplying by a number other than zero is undone by
/// dividing by it.
pub proof fn lemma_multiplication<E: LikeNumber>(x: E, y: E)
    requires
        is_exact_field::<E>(),
        !y.eq_spec(E::zero_spec()),
    ensures
        x.mul_spec(y).div_spec(y) == x,
{
    reveal(is_exact_field);
}

/// In a field, products can be regrouped, and a factor distributes over a
/// difference.
pub proof fn lemma_products<E: LikeNumber>(x: E, y: E, z: E)
    requires
        is_exact_field::<E>(),
    ensures
        x.mul_spec(y).mul_spec(z) == x.mul_spec(y.mul_spec(z)),
        x.mul_spec(y.sub_spec(z)) == x.mul_spec(y).sub_spec(x.mul_spec(z)),
{
    reveal(is_exact_field);
}

/// In a field, a multiple of a quotient is the quotient of the multiple.
pub proof fn lemma_scaled_quotient<E: LikeNumber>(k: E, x: E, y: E)
    requires
        is_exact_field::<E>(),
        !y.eq_spec(E::zero_spec()),
    ensures
        k.mul_spec(x).div_spec(y) == k.mul_spec(x.div_spec(y)),
{
    let q = x.div_spec(y);
    lemma_division(x, y);
    lemma_products(k, q, y);
    lemma_multiplication(k.mul_spec(q), y);
}

/// In a field, a product with a factor other than zero is zero only if the
/// other factor is.
pub proof fn lemma_zero_product<E: LikeNumber>(k: E, x: E)
    requires
        is_exact_field::<E>(),
        !x.eq_spec(E::zero_spec()),
        k.mul_spec(x) == E::zero_spec(),
    ensures
        k == E::zero_spec(),
{
    lemma_multiplication(k, x);
    lemma_multiplication(E::zero_spec(), x);
    lemma_units(x);
}

/// In a field, `x / (k * x)` times `k * y` is `y`, where `k * x` is not zero.
pub proof fn lemma_quotient_by_multiple<E: LikeNumber>(k: E, x: E, y: E)
    requires
        is_exact_field::<E>(),
        !k.mul_spec(x).eq_spec(E::zero_spec()),
    ensures
        x.div_spec(k.mul_spec(x)).mul_spec(k.mul_spec(y)) == y,
{
    let q = x.div_spec(k.mul_spec(x));
    lemma_zero_test(x);
    lemma_zero_test(k.mul_spec(x));
    lemma_units(k);
    lemma_units(x);
    lemma_units(y);
    assert(!x.eq_spec(E::zero_spec()));
    lemma_division(x, k.mul_spec(x));
    lemma_products(q, k, x);
    lemma_multiplication(q.mul_spec(k), x);
    lemma_multiplication(E::one_spec(), x);
    assert(q.mul_spec(k) == E::one_spec());
    lemma_products(q, k, y);
}

/// Over an exact field, a number compares equal to zero only if it is zero.
pub proof fn lemma_zero_test<E: LikeNumber>(x: E)
    requires
        is_exact_field::<E>(),
    ensures
        x.eq_spec(E::zero_spec()) <==> x == E::zero_spec(),
{
    reveal(is_exact_field);
}

/// An exact field, with its zero test without tolerance, meets everything
/// that the lemmas on rounding arithmetic ask of an element type.
pub proof fn lemma_field_eliminates_exactly<E: LikeNumber>()
    requires
        is_exact_field::<E>(),
    ensures
        crate::decomp::lu_lemmas::zero_tests_as_zero::<E>(None),
        crate::decomp::lu_lemmas::zero_tests_agree::<E>(None),
        crate::decomp::lu_lemmas::elimination_is_exact::<E>(None),
        crate::decomp::lu_lemmas::row_cancels_itself::<E>(None),
{
    let tol = None::<E>;
    let zero = E::zero_spec();
    lemma_zero_test(zero);
    assert forall|x: E, y: E|
        crate::decomp::lu::is_significant(x, tol) && !crate::decomp::lu::is_negligible(
            y,
            tol,
        ) implies !crate::decomp::lu::is_significant(
        x.sub_spec((#[trigger] x.div_spec(y)).mul_spec(y)),
        tol,
    ) by {
        lemma_division(x, y);
        lemma_take_itself(x);
    }
    assert forall|x: E, y: E| !crate::decomp::lu::is_negligible(x, tol) implies y.sub_spec(
        #[trigger] x.div_spec(x).mul_spec(y),
    ) == zero by {
        lemma_units(x);
        lemma_units(y);
        lemma_multiplication(E::one_spec(), x);
        lemma_take_itself(y);
    }
}

/// The rows of `mat` in the order that `p` gives: row `r` is row `p[r]` of `mat`.
pub open spec fn permuted_rows<E>(mat: MatrixView<E>, p: Seq<usize>) -> MatrixView<E> {
    MatrixView::from_fn(mat.rows, mat.cols, |r: int, c: int| mat.at(p[r] as int, c))
}

/// The columns of `l` from `i` on are still those of the identity.
pub open spec fn identity_from<E: LikeNumber>(l: MatrixView<E>, i: nat) -> bool {
    forall|r: int, c: int|
        0 <= r < l.rows && i <= c < l.cols ==> #[trigger] l.at(r, c) == crate::matrix::unit_entry::<E>(
            r,
            c,
        )
}

/// The first `i` columns of the working copy are zero.
pub open spec fn zero_before<E: LikeNumber>(a: MatrixView<E>, i: nat) -> bool {
    forall|r: int, c: int|
        0 <= r < a.rows && 0 <= c < i && c < a.cols ==> #[trigger] a.at(r, c) == E::zero_spec()
}

/// Each row of the input is what the first `i` columns of `l` make of `u`,
/// plus what is left of the row in the working copy.
pub open spec fn reconstructs<E: LikeNumber>(s: LuState<E>, i: nat, mat: MatrixView<E>) -> bool {
    forall|x: int, c: int|
        0 <= x < s.a.rows && 0 <= c < s.a.rows ==> mat.at(s.p[x] as int, c)
            == (#[trigger] crate::matrix::algebra::dot_prefix(s.l, s.u, x, c, i)).add_spec(
            s.a.at(s.p[x] as int, c),
        )
}

/// The place that holds, before the pivot changes places, what `x` holds after.
pub open spec fn place_before<E: LikeNumber>(s: LuState<E>, i: int, x: int) -> int {
    let k = crate::decomp::lu::pivot_place(s, i);
    if x == i {
        k
    } else if x == k {
        i
    } else {
        x
    }
}

/// The first `j` terms of a row of `l` times a column of `u` are, after the
/// step, those of the row that stood there before the pivot changed places.
pub proof fn lemma_prefix_follows_swap<E: LikeNumber>(
    s: LuState<E>,
    i: nat,
    tol: Option<E>,
    x: int,
    c: int,
    j: nat,
)
    requires
        crate::decomp::lu_lemmas::state_inv(s, i),
        i < s.a.rows,
        crate::decomp::lu_lemmas::zero_tests_as_zero(tol),
        crate::decomp::lu::lu_step(s, i as int, tol) is Some,
        0 <= x < s.a.rows,
        0 <= c < s.a.rows,
        j <= i,
    ensures
        ({
            let next = crate::decomp::lu::lu_step(s, i as int, tol)->Some_0;
            crate::matrix::algebra::dot_prefix(next.l, next.u, x, c, j)
                == crate::matrix::algebra::dot_prefix(s.l, s.u, place_before(s, i as int, x), c, j)
        }),
    decreases j,
{
    if j > 0 {
        lemma_prefix_follows_swap(s, i, tol, x, c, (j - 1) as nat);
        crate::decomp::lu_lemmas::lemma_step_entries(s, i, tol);
        crate::decomp::lu_lemmas::lemma_pivot_is_fresh(s, i, tol);
        let next = crate::decomp::lu::lu_step(s, i as int, tol)->Some_0;
        assert(next.l.at(x, j - 1) == s.l.at(place_before(s, i as int, x), j - 1));
        assert(next.u.at(j - 1, c) == s.u.at(j - 1, c));
    }
}

/// One step keeps the input reconstructed, over an exact field.
pub proof fn lemma_step_keeps_reconstruction<E: LikeNumber>(
    s: LuState<E>,
    i: nat,
    mat: MatrixView<E>,
)
    requires
        is_exact_field::<E>(),
        crate::decomp::lu_lemmas::state_inv(s, i),
        i < s.a.rows,
        crate::decomp::lu_lemmas::unit_lower_triangular(s.l),
        identity_from(s.l, i),
        zero_before(s.a, i),
        reconstructs(s, i, mat),
        crate::decomp::lu::lu_step(s, i as int, None) is Some,
    ensures
        ({
            let next = crate::decomp::lu::lu_step(s, i as int, None::<E>)->Some_0;
            &&& identity_from(next.l, i + 1)
            &&& zero_before(next.a, i + 1)
            &&& reconstructs(next, i + 1, mat)
        }),
{
    let tol = None::<E>;
    let n = s.a.rows;
    let next = crate::decomp::lu::lu_step(s, i as int, tol)->Some_0;
    let piv = crate::decomp::lu::pivot_row(s, i as int);
    let k = crate::decomp::lu::pivot_place(s, i as int);
    let zero = E::zero_spec();
    lemma_zero_test(zero);
    assert(crate::decomp::lu_lemmas::zero_tests_as_zero(tol));
    crate::decomp::lu_lemmas::lemma_step_entries(s, i, tol);
    crate::decomp::lu_lemmas::lemma_pivot_is_fresh(s, i, tol);
    crate::decomp::lu_lemmas::lemma_step_keeps_inv(s, i, tol);
    crate::decomp::lu::lemma_step_keeps_inverse(s, i as int);
    let y = s.a.at(piv, i as int);
    assert(!y.eq_spec(zero));

    assert forall|r: int, c: int| 0 <= r < next.l.rows && i + 1 <= c < next.l.cols implies #[trigger] next.l.at(
        r,
        c,
    ) == crate::matrix::unit_entry::<E>(r, c) by {
        assert(s.l.at(r, c) == crate::matrix::unit_entry::<E>(r, c));
    }

    assert forall|r: int, c: int| 0 <= r < next.a.rows && 0 <= c < i + 1 && c < next.a.cols implies #[trigger] next.a.at(
        r,
        c,
    ) == zero by {
        if c < i {
            assert(s.a.at(r, c) == zero);
        } else if crate::decomp::lu::eliminates(s, i as int, r, tol) {
            let x = s.a.at(r, i as int);
            assert(r != piv);
            lemma_division(x, y);
            lemma_take_itself(x);
        } else if r != piv {
            lemma_zero_test(s.a.at(r, i as int));
        }
    }

    assert forall|x: int, c: int| 0 <= x < next.a.rows && 0 <= c < next.a.rows implies mat.at(
        next.p[x] as int,
        c,
    ) == (#[trigger] crate::matrix::algebra::dot_prefix(next.l, next.u, x, c, i + 1)).add_spec(
        next.a.at(next.p[x] as int, c),
    ) by {
        let before = place_before(s, i as int, x);
        let r = next.p[x] as int;
        assert(r == s.p[before] as int);
        assert(next.inv_p[r] == x);
        lemma_prefix_follows_swap(s, i, tol, x, c, i);
        let d = crate::matrix::algebra::dot_prefix(s.l, s.u, before, c, i);
        assert(crate::matrix::algebra::dot_prefix(next.l, next.u, x, c, i) == d);
        let old_a = s.a.at(r, c);
        assert(mat.at(r, c) == d.add_spec(old_a));
        let w = s.a.at(piv, c);
        assert(next.u.at(i as int, c) == w);
        let f = next.l.at(x, i as int);
        let term = f.mul_spec(w);
        lemma_units(w);
        lemma_units(f);
        lemma_units(d);
        lemma_units(d.add_spec(w));
        assert(crate::matrix::algebra::dot_prefix(next.l, next.u, x, c, i + 1) == d.add_spec(term));
        if x == i {
            assert(r == piv);
            assert(next.a.at(r, c) == zero);
            assert(crate::decomp::lu::cleared_a_entry(s, i as int, r, i as int) == zero);
            assert(s.l.at(i as int, i as int) == crate::matrix::unit_entry::<E>(i as int, i as int));
            assert(f == E::one_spec());
            assert(term == w);
            assert(d.add_spec(w).add_spec(zero) == d.add_spec(w));
        } else {
            assert(r != piv);
            if crate::decomp::lu::eliminates(s, i as int, r, tol) {
                assert(f == crate::decomp::lu::ratio(s, i as int, r));
                if c >= i {
                    assert(next.a.at(r, c) == old_a.sub_spec(term));
                    lemma_add_then_take(d, term, old_a);
                } else {
                    assert(w == zero);
                    assert(term == zero);
                    assert(next.a.at(r, c) == old_a);
                    assert(d.add_spec(zero) == d);
                }
            } else {
                assert(s.l.at(x, i as int) == crate::matrix::unit_entry::<E>(x, i as int));
                assert(f == zero);
                assert(term == zero);
                assert(next.a.at(r, c) == old_a);
                assert(d.add_spec(zero) == d);
            }
        }
    }
}

/// The rest of the elimination keeps the input reconstructed, over an exact
/// field.
pub proof fn lemma_run_keeps_reconstruction<E: LikeNumber>(
    s: LuState<E>,
    i: nat,
    mat: MatrixView<E>,
)
    requires
        is_exact_field::<E>(),
        crate::decomp::lu_lemmas::state_inv(s, i),
        crate::decomp::lu_lemmas::unit_lower_triangular(s.l),
        identity_from(s.l, i),
        zero_before(s.a, i),
        reconstructs(s, i, mat),
        crate::decomp::lu::lu_run(s, i, None) is Some,
    ensures
        ({
            let last = crate::decomp::lu::lu_run(s, i, None::<E>)->Some_0;
            &&& last.a.rows == s.a.rows
            &&& crate::decomp::lu_lemmas::state_inv(last, s.a.rows)
            &&& reconstructs(last, s.a.rows, mat)
        }),
    decreases s.a.rows - i,
{
    let tol = None::<E>;
    lemma_zero_test(E::zero_spec());
    if i < s.a.rows {
        let next = crate::decomp::lu::lu_step(s, i as int, tol)->Some_0;
        assert(crate::decomp::lu_lemmas::zero_tests_as_zero(tol));
        crate::decomp::lu_lemmas::lemma_step_keeps_inv(s, i, tol);
        crate::decomp::lu_lemmas::lemma_step_keeps_unit_lower(s, i, tol);
        lemma_step_keeps_reconstruction(s, i, mat);
        lemma_run_keeps_reconstruction(next, i + 1, mat);
    }
}

/// Over an exact field, the factors of a decomposition multiply back to the
/// input with its rows in the order of the permutation: `L * U == P * A`.
pub proof fn lemma_lu_reconstructs<E: LikeNumber>(mat: MatrixView<E>)
    requires
        mat.wf(),
        mat.rows == mat.cols,
        mat.rows <= usize::MAX,
        is_exact_field::<E>(),
        crate::decomp::lu::lu_model(mat, None) is Some,
    ensures
        ({
            let last = crate::decomp::lu::lu_model(mat, None::<E>)->Some_0;
            crate::matrix::algebra::mul_view(last.l, last.u) == permuted_rows(mat, last.p)
        }),
{
    let tol = None::<E>;
    let n = mat.rows;
    let start = crate::decomp::lu::lu_start(mat);
    crate::decomp::lu_lemmas::lemma_start(mat);
    crate::matrix::lemma_from_fn_entries(n, n, |r: int, c: int| crate::matrix::unit_entry::<E>(r, c));
    assert forall|x: int, c: int| 0 <= x < n && 0 <= c < n implies mat.at(start.p[x] as int, c) == (
    #[trigger] crate::matrix::algebra::dot_prefix(start.l, start.u, x, c, 0)).add_spec(
        start.a.at(start.p[x] as int, c),
    ) by {
        lemma_units(mat.at(x, c));
    }
    lemma_run_keeps_reconstruction(start, 0, mat);
    let last = crate::decomp::lu::lu_model(mat, tol)->Some_0;
    let product = crate::matrix::algebra::mul_view(last.l, last.u);
    let permuted = permuted_rows(mat, last.p);
    crate::matrix::algebra_lemmas::lemma_product_entries(last.l, last.u);
    crate::matrix::lemma_from_fn_entries(n, n, |r: int, c: int| mat.at(last.p[r] as int, c));
    assert forall|x: int, c: int| product.has(x, c) implies product.at(x, c) == permuted.at(x, c) by {
        let d = crate::matrix::algebra::dot_prefix(last.l, last.u, x, c, n);
        let r = last.p[x] as int;
        assert(last.inv_p[r] == x);
        assert(last.a.at(r, c) == E::zero_spec());
        assert(mat.at(r, c) == d.add_spec(last.a.at(r, c)));
        lemma_units(d);
    }
    crate::matrix::lemma_view_ext(product, permuted);
}

/// Row `r2` is `k` times row `r1` of the working copy, and neither has been a
/// pivot.
pub open spec fn are_proportional<E: LikeNumber>(
    s: LuState<E>,
    i: nat,
    r1: int,
    r2: int,
    k: E,
) -> bool {
    &&& 0 <= r1 < s.a.rows
    &&& 0 <= r2 < s.a.rows
    &&& r1 != r2
    &&& s.inv_p[r1] >= i
    &&& s.inv_p[r2] >= i
    &&& forall|c: int| 0 <= c < s.a.rows ==> #[trigger] s.a.at(r2, c) == k.mul_spec(s.a.at(r1, c))
}

/// Over an exact field, an elimination with two proportional rows cannot
/// end: once one of them is the pivot, the other is spent.
pub proof fn lemma_proportional_rows_fail<E: LikeNumber>(
    s: LuState<E>,
    i: nat,
    r1: int,
    r2: int,
    k: E,
)
    requires
        is_exact_field::<E>(),
        crate::decomp::lu_lemmas::state_inv(s, i),
        are_proportional(s, i, r1, r2, k),
    ensures
        crate::decomp::lu::lu_run(s, i, None) is None,
    decreases s.a.rows - i,
{
    let tol = None::<E>;
    let n = s.a.rows;
    let zero = E::zero_spec();
    lemma_zero_test(zero);
    assert(crate::decomp::lu_lemmas::zero_tests_as_zero(tol));
    assert(s.inv_p[r1] < n);
    if crate::decomp::lu::lu_step(s, i as int, tol) is Some {
        let next = crate::decomp::lu::lu_step(s, i as int, tol)->Some_0;
        let piv = crate::decomp::lu::pivot_row(s, i as int);
        crate::decomp::lu_lemmas::lemma_step_entries(s, i, tol);
        crate::decomp::lu_lemmas::lemma_pivot_is_fresh(s, i, tol);
        crate::decomp::lu_lemmas::lemma_step_keeps_inv(s, i, tol);
        let y = s.a.at(piv, i as int);
        let x1 = s.a.at(r1, i as int);
        let x2 = s.a.at(r2, i as int);
        assert(x2 == k.mul_spec(x1));
        lemma_zero_test(x1);
        lemma_zero_test(x2);
        lemma_zero_test(y);
        lemma_units(k);
        lemma_units(x1);
        if piv == r1 {
            crate::decomp::lu_lemmas::lemma_other_row_stays_fresh(s, i, tol, r2);
            assert forall|c: int| i + 1 <= c < next.a.rows implies #[trigger] next.a.at(r2, c)
                == zero by {
                let a1 = s.a.at(r1, c);
                let a2 = s.a.at(r2, c);
                assert(a2 == k.mul_spec(a1));
                lemma_units(a1);
                if x2 == zero {
                    lemma_zero_product(k, x1);
                } else {
                    lemma_multiplication(k, x1);
                    lemma_take_itself(a2);
                }
            }
            crate::decomp::lu_lemmas::lemma_spent_row_fails(next, i + 1, tol, r2);
        } else if piv == r2 {
            crate::decomp::lu_lemmas::lemma_other_row_stays_fresh(s, i, tol, r1);
            assert(x1 != zero);
            assert forall|c: int| i + 1 <= c < next.a.rows implies #[trigger] next.a.at(r1, c)
                == zero by {
                let a1 = s.a.at(r1, c);
                let a2 = s.a.at(r2, c);
                assert(a2 == k.mul_spec(a1));
                lemma_quotient_by_multiple(k, x1, a1);
                lemma_take_itself(a1);
            }
            crate::decomp::lu_lemmas::lemma_spent_row_fails(next, i + 1, tol, r1);
        } else {
            crate::decomp::lu_lemmas::lemma_other_row_stays_fresh(s, i, tol, r1);
            crate::decomp::lu_lemmas::lemma_other_row_stays_fresh(s, i, tol, r2);
            assert forall|c: int| 0 <= c < next.a.rows implies #[trigger] next.a.at(r2, c)
                == k.mul_spec(next.a.at(r1, c)) by {
                let a1 = s.a.at(r1, c);
                let a2 = s.a.at(r2, c);
                let w = s.a.at(piv, c);
                assert(a2 == k.mul_spec(a1));
                if c >= i && x1 != zero {
                    let q = x1.div_spec(y);
                    if x2 == zero {
                        lemma_zero_product(k, x1);
                        lemma_units(a1);
                        lemma_units(next.a.at(r1, c));
                    } else {
                        lemma_scaled_quotient(k, x1, y);
                        lemma_products(k, q, w);
                        lemma_products(k, a1, q.mul_spec(w));
                    }
                }
            }
            lemma_proportional_rows_fail(next, i + 1, r1, r2, k);
        }
    }
}

/// Over an exact field, a square matrix in which one row is a multiple of
/// another is found singular.
pub proof fn lemma_proportional_rows_are_singular<E: LikeNumber>(
    mat: MatrixView<E>,
    r1: int,
    r2: int,
    k: E,
)
    requires
        mat.wf(),
        mat.rows == mat.cols,
        mat.rows <= usize::MAX,
        is_exact_field::<E>(),
        0 <= r1 < mat.rows,
        0 <= r2 < mat.rows,
        r1 != r2,
        forall|c: int| 0 <= c < mat.cols ==> #[trigger] mat.at(r2, c) == k.mul_spec(mat.at(r1, c)),
    ensures
        crate::decomp::lu::lu_model(mat, None) is None,
{
    crate::decomp::lu_lemmas::lemma_start(mat);
    lemma_proportional_rows_fail(crate::decomp::lu::lu_start(mat), 0, r1, r2, k);
}

} // verus!
