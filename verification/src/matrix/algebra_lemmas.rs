//! What holds of the matrix algebra for every matrix.

use crate::matrix::{LikeNumber, MatrixView};
use vstd::prelude::*;

verus! {

/// Transposing twice gives the matrix back.
pub proof fn lemma_transpose_twice<E>(a: MatrixView<E>)
    requires
        a.wf(),
    ensures
        crate::matrix::algebra::tr_view(crate::matrix::algebra::tr_view(a)) == a,
{
    let t = crate::matrix::algebra::tr_view(a);
    let tt = crate::matrix::algebra::tr_view(t);
    crate::matrix::lemma_from_fn_entries(a.cols, a.rows, |r: int, c: int| a.at(c, r));
    crate::matrix::lemma_from_fn_entries(t.cols, t.rows, |r: int, c: int| t.at(c, r));
    crate::matrix::lemma_view_ext(tt, a);
}

/// The transpose has the shape turned round and the entries mirrored.
pub proof fn lemma_transpose_entries<E>(a: MatrixView<E>)
    ensures
        crate::matrix::algebra::tr_view(a).wf(),
        crate::matrix::algebra::tr_view(a).rows == a.cols,
        crate::matrix::algebra::tr_view(a).cols == a.rows,
        forall|r: int, c: int|
            0 <= r < a.cols && 0 <= c < a.rows ==> #[trigger] crate::matrix::algebra::tr_view(a).at(
                r,
                c,
            ) == a.at(c, r),
{
    crate::matrix::lemma_from_fn_entries(a.cols, a.rows, |r: int, c: int| a.at(c, r));
}

/// The product has the rows of the left and the columns of the right matrix,
/// and each entry is a dot product.
pub proof fn lemma_product_entries<E: LikeNumber>(left: MatrixView<E>, right: MatrixView<E>)
    ensures
        crate::matrix::algebra::mul_view(left, right).wf(),
        crate::matrix::algebra::mul_view(left, right).rows == left.rows,
        crate::matrix::algebra::mul_view(left, right).cols == right.cols,
        forall|r: int, c: int|
            0 <= r < left.rows && 0 <= c < right.cols ==> #[trigger] crate::matrix::algebra::mul_view(
                left,
                right,
            ).at(r, c) == crate::matrix::algebra::dot_prefix(left, right, r, c, left.cols),
{
    crate::matrix::lemma_from_fn_entries(
        left.rows,
        right.cols,
        |r: int, c: int| crate::matrix::algebra::dot_prefix(left, right, r, c, left.cols),
    );
}

/// The sum of two matrices of one shape has that shape, and each entry is
/// the sum of the entries in its place.
pub proof fn lemma_sum_entries<E: LikeNumber>(a: MatrixView<E>, b: MatrixView<E>)
    requires
        a.wf(),
        b.wf(),
        a.same_shape(b),
    ensures
        crate::matrix::algebra::add_view(a, b).wf(),
        crate::matrix::algebra::add_view(a, b).same_shape(a),
        forall|r: int, c: int|
            a.has(r, c) ==> #[trigger] crate::matrix::algebra::add_view(a, b).at(r, c) == a.at(
                r,
                c,
            ).add_spec(b.at(r, c)),
{
    assert forall|r: int, c: int| a.has(r, c) implies #[trigger] crate::matrix::algebra::add_view(
        a,
        b,
    ).at(r, c) == a.at(r, c).add_spec(b.at(r, c)) by {
        crate::matrix::layout::lemma_offset_in_range(a.rows as int, a.cols as int, r, c);
    }
}

/// The difference of two matrices of one shape has that shape, and each
/// entry is the difference of the entries in its place.
pub proof fn lemma_difference_entries<E: LikeNumber>(a: MatrixView<E>, b: MatrixView<E>)
    requires
        a.wf(),
        b.wf(),
        a.same_shape(b),
    ensures
        crate::matrix::algebra::sub_view(a, b).wf(),
        crate::matrix::algebra::sub_view(a, b).same_shape(a),
        forall|r: int, c: int|
            a.has(r, c) ==> #[trigger] crate::matrix::algebra::sub_view(a, b).at(r, c) == a.at(
                r,
                c,
            ).sub_spec(b.at(r, c)),
{
    assert forall|r: int, c: int| a.has(r, c) implies #[trigger] crate::matrix::algebra::sub_view(
        a,
        b,
    ).at(r, c) == a.at(r, c).sub_spec(b.at(r, c)) by {
        crate::matrix::layout::lemma_offset_in_range(a.rows as int, a.cols as int, r, c);
    }
}

/// Zero and the unit behave as units of the element type: zero times
/// anything is zero, the unit times anything is that thing, and adding zero
/// on either side changes nothing.
pub open spec fn has_units<E: LikeNumber>() -> bool {
    &&& forall|x: E| #[trigger] E::zero_spec().mul_spec(x) == E::zero_spec()
    &&& forall|x: E| #[trigger] E::one_spec().mul_spec(x) == x
    &&& forall|x: E| #[trigger] E::zero_spec().add_spec(x) == x
    &&& forall|x: E| #[trigger] x.add_spec(E::zero_spec()) == x
}

/// Row `r` of the identity times column `c` of `a`, summed over the first
/// `k` terms, is zero until term `r` has come and the entry `(r, c)` after.
pub proof fn lemma_identity_row_dot<E: LikeNumber>(a: MatrixView<E>, r: int, c: int, k: nat)
    requires
        a.wf(),
        a.has(r, c),
        k <= a.rows,
        has_units::<E>(),
    ensures
        crate::matrix::algebra::dot_prefix(crate::matrix::identity_view::<E>(a.rows), a, r, c, k)
            == (if k <= r {
            E::zero_spec()
        } else {
            a.at(r, c)
        }),
    decreases k,
{
    if k > 0 {
        let unit = crate::matrix::identity_view::<E>(a.rows);
        lemma_identity_row_dot(a, r, c, (k - 1) as nat);
        crate::matrix::lemma_from_fn_at(
            a.rows,
            a.rows,
            |i: int, j: int| crate::matrix::unit_entry::<E>(i, j),
            r,
            k - 1,
        );
        let term = unit.at(r, k - 1).mul_spec(a.at(k - 1, c));
        if k - 1 == r {
            assert(term == a.at(r, c));
        } else {
            assert(term == E::zero_spec());
        }
    }
}

/// The identity times a matrix is that matrix, for an element type in which
/// zero and the unit behave as units.
pub proof fn lemma_identity_times<E: LikeNumber>(a: MatrixView<E>)
    requires
        a.wf(),
        has_units::<E>(),
    ensures
        crate::matrix::algebra::mul_view(crate::matrix::identity_view::<E>(a.rows), a) == a,
{
    let unit = crate::matrix::identity_view::<E>(a.rows);
    let product = crate::matrix::algebra::mul_view(unit, a);
    lemma_product_entries(unit, a);
    crate::matrix::lemma_from_fn_entries(
        a.rows,
        a.rows,
        |i: int, j: int| crate::matrix::unit_entry::<E>(i, j),
    );
    assert forall|r: int, c: int| product.has(r, c) implies product.at(r, c) == a.at(r, c) by {
        lemma_identity_row_dot(a, r, c, a.rows);
    }
    crate::matrix::lemma_view_ext(product, a);
}

} // verus!
