//! QR decomposition algorithms.

use crate::error::{JolinError, JolinErrorKind};
use crate::matrix::{LikeNumber, Matrix, MatrixView};
use vstd::prelude::*;

verus! {

/// The answer of QR decomposition
#[derive(Debug, Clone)]
pub struct QRDecomposition<T: Matrix> {
    pub q: T,
    pub r: T,
}

/// The sum of the first `n` products `a[k] * b[k]`, accumulated from zero in
/// the order of `k`.
pub open spec fn dot_spec<E: LikeNumber>(a: Seq<E>, b: Seq<E>, n: nat) -> E
    decreases n,
{
    if n == 0 {
        E::zero_spec()
    } else {
        dot_spec(a, b, (n - 1) as nat).add_spec(a[n - 1].mul_spec(b[n - 1]))
    }
}

/// The Euclidean norm: the square root of the dot product of `v` with itself.
pub open spec fn l2_norm_spec<E: LikeNumber>(v: Seq<E>) -> E {
    dot_spec(v, v, v.len()).sqrt_spec()
}

/// Column `col` of the input after its components along the first `k` columns
/// of `q` have been taken away, one column of `q` after the other.
pub open spec fn projected<E: LikeNumber>(col: Seq<E>, q: MatrixView<E>, k: nat) -> Seq<E>
    decreases k,
{
    if k == 0 {
        col
    } else {
        let prev = projected(col, q, (k - 1) as nat);
        let ratio = dot_spec(prev, q.col(k - 1), prev.len());
        Seq::new(prev.len(), |j: int| prev[j].sub_spec(ratio.mul_spec(q.at(j, k - 1))))
    }
}

/// An entry of `q` once column `i` has been filled with the normalized rest
/// of input column `i`.
pub open spec fn gs_q_entry<E: LikeNumber>(
    mat: MatrixView<E>,
    q: MatrixView<E>,
    i: int,
    r: int,
    c: int,
) -> E {
    if c == i {
        let rest = projected(mat.col(i), q, i as nat);
        rest[r].div_spec(l2_norm_spec(rest))
    } else {
        q.at(r, c)
    }
}

/// The orthogonal factor after the first `i` columns of the input have been
/// orthogonalized; the columns from `i` on are still zero.
pub open spec fn gs_q<E: LikeNumber>(mat: MatrixView<E>, i: nat) -> MatrixView<E>
    decreases i,
{
    if i == 0 {
        crate::matrix::zero_view::<E>(mat.rows, mat.rows)
    } else {
        let q = gs_q(mat, (i - 1) as nat);
        MatrixView::from_fn(mat.rows, mat.rows, |r: int, c: int| gs_q_entry(mat, q, i - 1, r, c))
    }
}

/// The triangular factor: on and above the diagonal the dot product of a
/// column of `q` and a column of the input, zero below it.
pub open spec fn gs_r<E: LikeNumber>(mat: MatrixView<E>, q: MatrixView<E>) -> MatrixView<E> {
    MatrixView::from_fn(
        mat.rows,
        mat.cols,
        |r: int, c: int|
            if r <= c {
                dot_spec(q.col(r), mat.col(c), mat.rows)
            } else {
                E::zero_spec()
            },
    )
}

/// `q` is square with the rows of `mat`, and `r` has the shape of `mat`.
pub open spec fn qr_well_shaped<T: Matrix>(d: QRDecomposition<T>, mat: MatrixView<T::Elem>) -> bool {
    &&& d.q@.wf()
    &&& d.q@.rows == mat.rows
    &&& d.q@.cols == mat.rows
    &&& d.r@.wf()
    &&& d.r@.same_shape(mat)
}

/// What the Gram-Schmidt decomposition returns for `mat`.
pub open spec fn gram_schmidt_outcome<T: Matrix>(
    mat: MatrixView<T::Elem>,
    res: Result<QRDecomposition<T>, JolinError>,
) -> bool {
    match res {
        Ok(d) => {
            &&& mat.rows >= mat.cols
            &&& d.q@ == gs_q(mat, mat.cols)
            &&& d.r@ == gs_r(mat, gs_q(mat, mat.cols))
        },
        Err(e) => mat.rows < mat.cols && e.spec_kind() == JolinErrorKind::ShapeMismatching,
    }
}

fn l2_norm_of_vector<E: LikeNumber>(v: &[E]) -> (norm: E)
    ensures
        norm == l2_norm_spec(v@),
{
    let n = v.len();
    let mut sum = E::zero();
    for i in 0..n
        invariant
            n == v@.len(),
            sum == dot_spec(v@, v@, i as nat),
    {
        sum = sum.add(v[i].mul(v[i]));
    }
    sum.sqrt()
}

fn vector_dot_product<E: LikeNumber>(a: &[E], b: &[E]) -> (dot: E)
    requires
        a@.len() == b@.len(),
    ensures
        dot == dot_spec(a@, b@, a@.len()),
{
    let n = a.len();
    let mut sum = E::zero();
    for i in 0..n
        invariant
            n == a@.len(),
            n == b@.len(),
            sum == dot_spec(a@, b@, i as nat),
    {
        sum = sum.add(a[i].mul(b[i]));
    }
    sum
}

/// Taking a projection away keeps the length of the column.
pub proof fn lemma_projected_len<E: LikeNumber>(col: Seq<E>, q: MatrixView<E>, k: nat)
    ensures
        projected(col, q, k).len() == col.len(),
    decreases k,
{
    if k > 0 {
        lemma_projected_len(col, q, (k - 1) as nat);
    }
}

/// The orthogonal factor is a well-formed square matrix at every stage.
pub proof fn lemma_gs_q_shape<E: LikeNumber>(mat: MatrixView<E>, i: nat)
    ensures
        gs_q(mat, i).wf(),
        gs_q(mat, i).rows == mat.rows,
        gs_q(mat, i).cols == mat.rows,
    decreases i,
{
    if i == 0 {
        crate::matrix::lemma_from_fn_entries(
            mat.rows,
            mat.rows,
            |r: int, c: int| E::zero_spec(),
        );
    } else {
        let q = gs_q(mat, (i - 1) as nat);
        crate::matrix::lemma_from_fn_entries(
            mat.rows,
            mat.rows,
            |r: int, c: int| gs_q_entry(mat, q, i - 1, r, c),
        );
    }
}

/// Compute QR decomputation of the matrix with Gram-Schmidt process
///
/// This method is numbercially unstable, however, it's easy to understand.
///
/// A shape mismatching error will be returned if the matrix has fewer rows
/// than columns.
pub fn qr_gram_schmidt<T: Matrix>(mat: &T) -> (res: Result<QRDecomposition<T>, JolinError>)
    requires
        mat@.rows >= mat@.cols ==> mat@.rows * mat@.rows <= usize::MAX,
    ensures
        gram_schmidt_outcome(mat@, res),
        res matches Ok(d) ==> qr_well_shaped(d, mat@),
{
    if mat.row() < mat.column() {
        return Err(JolinError::shape_mismatching());
    }
    let m = mat.row();
    let n = mat.column();
    let entries = mat.data();
    proof {
        assert(entries@.len() == entries.len());
    }
    let mut a = T::new(m, n, entries);
    let mut q = T::zero(m, m);
    proof {
        assert(a@ == mat@);
    }
    for i in 0..n
        invariant
            mat@.wf(),
            m == mat@.rows,
            n == mat@.cols,
            n <= m,
            m * n <= usize::MAX,
            a@.wf(),
            a@.same_shape(mat@),
            q@ == gs_q(mat@, i as nat),
            forall|r: int, c: int| 0 <= r < m && i <= c < n ==> #[trigger] a@.at(r, c) == mat@.at(r, c),
    {
        let ghost q0 = q@;
        proof {
            lemma_gs_q_shape(mat@, i as nat);
            crate::matrix::lemma_col_entries(mat@, i as int);
            crate::matrix::lemma_col_entries(a@, i as int);
            assert(a@.col(i as int) =~= mat@.col(i as int));
        }
        // eliminate column i of a with projection from computed Q
        for ii in 0..i
            invariant
                mat@.wf(),
                m == mat@.rows,
                n == mat@.cols,
                n <= m,
                i < n,
                a@.wf(),
                a@.same_shape(mat@),
                q@ == q0,
                q0.wf(),
                q0.rows == m,
                q0.cols == m,
                a@.col(i as int) == projected(mat@.col(i as int), q0, ii as nat),
                forall|r: int, c: int|
                    0 <= r < m && i < c < n ==> #[trigger] a@.at(r, c) == mat@.at(r, c),
        {
            let ratio = vector_dot_product(a.data_column(i), q.data_column(ii));
            let ghost prev = a@.col(i as int);
            proof {
                lemma_projected_len(mat@.col(i as int), q0, ii as nat);
                crate::matrix::lemma_col_entries(a@, i as int);
            }
            for j in 0..m
                invariant
                    mat@.wf(),
                    m == mat@.rows,
                    n == mat@.cols,
                    n <= m,
                    i < n,
                    ii < i,
                    a@.wf(),
                    a@.same_shape(mat@),
                    q@ == q0,
                    q0.wf(),
                    q0.rows == m,
                    q0.cols == m,
                    prev.len() == m,
                    forall|r: int|
                        0 <= r < m ==> #[trigger] a@.at(r, i as int) == (if r < j {
                            prev[r].sub_spec(ratio.mul_spec(q0.at(r, ii as int)))
                        } else {
                            prev[r]
                        }),
                    forall|r: int, c: int|
                        0 <= r < m && i < c < n ==> #[trigger] a@.at(r, c) == mat@.at(r, c),
            {
                let previous = a.elem(j, i);
                let ghost a0 = a@;
                let value = previous.sub(ratio.mul(q.elem(j, ii)));
                a.set_elem(j, i, value);
                proof {
                    crate::matrix::lemma_set_entries(a0, j as int, i as int, value);
                }
            }
            proof {
                crate::matrix::lemma_col_entries(a@, i as int);
                assert(a@.col(i as int) =~= projected(mat@.col(i as int), q0, (ii + 1) as nat));
            }
        }

        let u = a.data_column(i);
        let u_l2 = l2_norm_of_vector(u);
        proof {
            lemma_projected_len(mat@.col(i as int), q0, i as nat);
        }
        for j in 0..m
            invariant
                m == mat@.rows,
                i < n,
                n <= m,
                u@ == projected(mat@.col(i as int), q0, i as nat),
                u@.len() == m,
                u_l2 == l2_norm_spec(u@),
                q0.wf(),
                q0.rows == m,
                q0.cols == m,
                q@.wf(),
                q@.same_shape(q0),
                forall|r: int, c: int|
                    0 <= r < m && 0 <= c < m ==> #[trigger] q@.at(r, c) == (if r < j {
                        gs_q_entry(mat@, q0, i as int, r, c)
                    } else {
                        q0.at(r, c)
                    }),
        {
            let ghost q1 = q@;
            let value = u[j].div(u_l2);
            q.set_elem(j, i, value);
            proof {
                crate::matrix::lemma_set_entries(q1, j as int, i as int, value);
            }
        }
        proof {
            let next = gs_q(mat@, (i + 1) as nat);
            crate::matrix::lemma_from_fn_entries(
                mat@.rows,
                mat@.rows,
                |r: int, c: int| gs_q_entry(mat@, q0, i as int, r, c),
            );
            crate::matrix::lemma_view_ext(q@, next);
        }
    }
    let mut rmat = T::zero(m, n);
    proof {
        lemma_gs_q_shape(mat@, n as nat);
        crate::matrix::lemma_from_fn_entries(
            m as nat,
            n as nat,
            |r: int, c: int| T::Elem::zero_spec(),
        );
    }
    for c in 0..n
        invariant
            mat@.wf(),
            m == mat@.rows,
            n == mat@.cols,
            n <= m,
            q@.wf(),
            q@.rows == m,
            q@.cols == m,
            rmat@.wf(),
            rmat@.rows == m,
            rmat@.cols == n,
            forall|r: int, cc: int|
                0 <= r < m && 0 <= cc < n ==> #[trigger] rmat@.at(r, cc) == (if r <= cc && cc < c {
                    dot_spec(q@.col(r), mat@.col(cc), m as nat)
                } else {
                    T::Elem::zero_spec()
                }),
    {
        for r in 0..(c + 1)
            invariant
                mat@.wf(),
                m == mat@.rows,
                n == mat@.cols,
                n <= m,
                c < n,
                q@.wf(),
                q@.rows == m,
                q@.cols == m,
                rmat@.wf(),
                rmat@.rows == m,
                rmat@.cols == n,
                forall|rr: int, cc: int|
                    0 <= rr < m && 0 <= cc < n ==> #[trigger] rmat@.at(rr, cc) == (if rr <= cc && (cc
                        < c || (cc == c && rr < r)) {
                        dot_spec(q@.col(rr), mat@.col(cc), m as nat)
                    } else {
                        T::Elem::zero_spec()
                    }),
        {
            let value = vector_dot_product(q.data_column(r), mat.data_column(c));
            let ghost r0 = rmat@;
            rmat.set_elem(r, c, value);
            proof {
                crate::matrix::lemma_set_entries(r0, r as int, c as int, value);
            }
        }
    }
    proof {
        let want = gs_r(mat@, q@);
        crate::matrix::lemma_from_fn_entries(
            mat@.rows,
            mat@.cols,
            |r: int, c: int|
                if r <= c {
                    dot_spec(q@.col(r), mat@.col(c), mat@.rows)
                } else {
                    T::Elem::zero_spec()
                },
        );
        crate::matrix::lemma_view_ext(rmat@, want);
    }
    Ok(QRDecomposition { q, r: rmat })
}

/// The normalized Householder vector of column `i` of `a`, taken from the
/// diagonal down.
pub open spec fn hh_vector<E: LikeNumber>(a: MatrixView<E>, i: int) -> Seq<E> {
    let x = a.col(i).subrange(i, a.rows as int);
    let alpha = l2_norm_spec(x).neg_spec().mul_spec(x[0].sign_spec());
    let u = x.update(0, x[0].sub_spec(alpha));
    let norm = l2_norm_spec(u);
    Seq::new(u.len(), |j: int| u[j].div_spec(norm))
}

/// An entry of the reflector built from `u`: the identity, less twice the
/// product `u[r - i] * u[c - i]` inside the block that starts at `(i, i)`.
pub open spec fn reflector_entry<E: LikeNumber>(u: Seq<E>, i: int, r: int, c: int) -> E {
    if r >= i && c >= i {
        let vvt = u[r - i].mul_spec(u[c - i]);
        crate::matrix::unit_entry::<E>(r, c).sub_spec(vvt).sub_spec(vvt)
    } else {
        crate::matrix::unit_entry::<E>(r, c)
    }
}

/// The `m` by `m` Householder reflector built from `u` for column `i`.
pub open spec fn reflector<E: LikeNumber>(m: nat, u: Seq<E>, i: int) -> MatrixView<E> {
    MatrixView::from_fn(m, m, |r: int, c: int| reflector_entry(u, i, r, c))
}

/// The accumulated reflectors and the reduced matrix after `i` columns.
pub struct HouseholderState<E> {
    /// The product of the reflectors so far, the latest on the left.
    pub q: MatrixView<E>,
    /// The input with the reflectors applied to it.
    pub a: MatrixView<E>,
}

/// The state after the first `i` columns have been reflected.
pub open spec fn hh_state<E: LikeNumber>(mat: MatrixView<E>, i: nat) -> HouseholderState<E>
    decreases i,
{
    if i == 0 {
        HouseholderState { q: crate::matrix::identity_view::<E>(mat.rows), a: mat }
    } else {
        let prev = hh_state(mat, (i - 1) as nat);
        let q_i = reflector(mat.rows, hh_vector(prev.a, i - 1), i - 1);
        HouseholderState {
            q: crate::matrix::algebra::mul_view(q_i, prev.q),
            a: crate::matrix::algebra::mul_view(q_i, prev.a),
        }
    }
}

/// The number of columns that are reflected: all of them, but never the last
/// row's.
pub open spec fn hh_rounds<E>(mat: MatrixView<E>) -> nat {
    if mat.rows == 0 {
        0
    } else if mat.rows - 1 < mat.cols {
        (mat.rows - 1) as nat
    } else {
        mat.cols
    }
}

/// What the Householder decomposition returns for `mat`.
pub open spec fn householder_outcome<T: Matrix>(
    mat: MatrixView<T::Elem>,
    res: Result<QRDecomposition<T>, JolinError>,
) -> bool {
    match res {
        Ok(d) => {
            &&& mat.rows >= mat.cols
            &&& d.q@ == crate::matrix::algebra::tr_view(hh_state(mat, hh_rounds(mat)).q)
            &&& d.r@ == hh_state(mat, hh_rounds(mat)).a
        },
        Err(e) => mat.rows < mat.cols && e.spec_kind() == JolinErrorKind::ShapeMismatching,
    }
}

/// The reduced matrix keeps the shape of the input, and the accumulated
/// reflectors are square.
pub proof fn lemma_hh_state_shape<E: LikeNumber>(mat: MatrixView<E>, i: nat)
    requires
        mat.wf(),
    ensures
        hh_state(mat, i).a.wf(),
        hh_state(mat, i).a.same_shape(mat),
        hh_state(mat, i).q.wf(),
        hh_state(mat, i).q.rows == mat.rows,
        hh_state(mat, i).q.cols == mat.rows,
    decreases i,
{
    if i == 0 {
        crate::matrix::lemma_from_fn_entries(
            mat.rows,
            mat.rows,
            |r: int, c: int| crate::matrix::unit_entry::<E>(r, c),
        );
    } else {
        lemma_hh_state_shape(mat, (i - 1) as nat);
        let prev = hh_state(mat, (i - 1) as nat);
        let q_i = reflector(mat.rows, hh_vector(prev.a, i - 1), i - 1);
        crate::matrix::lemma_from_fn_entries(
            q_i.rows,
            prev.q.cols,
            |r: int, c: int| crate::matrix::algebra::dot_prefix(q_i, prev.q, r, c, q_i.cols),
        );
        crate::matrix::lemma_from_fn_entries(
            q_i.rows,
            prev.a.cols,
            |r: int, c: int| crate::matrix::algebra::dot_prefix(q_i, prev.a, r, c, q_i.cols),
        );
    }
}

/// QR decomposition based on Householder reflections.
///
/// This method features better numerical stability, but it costs more time and memory bandwidth.
///
/// A shape mismatching error will be returned if the matrix has fewer rows
/// than columns.
pub fn qr_househoulder<T: Matrix>(mat: &T) -> (res: Result<QRDecomposition<T>, JolinError>)
    requires
        mat@.rows >= mat@.cols ==> mat@.rows * mat@.rows <= usize::MAX,
    ensures
        householder_outcome(mat@, res),
        res matches Ok(d) ==> qr_well_shaped(d, mat@),
{
    if mat.row() < mat.column() {
        return Err(JolinError::shape_mismatching());
    }
    let m = mat.row();
    let n = mat.column();
    let entries = mat.data();
    proof {
        assert(entries@.len() == entries.len());
    }
    let mut a = T::new(m, n, entries);
    let mut q = T::identity(m);
    let full_iteration = if m == 0 {
        0
    } else if m - 1 < n {
        m - 1
    } else {
        n
    };
    proof {
        assert(a@ == mat@);
    }
    for i in 0..full_iteration
        invariant
            mat@.wf(),
            m == mat@.rows,
            n == mat@.cols,
            n <= m,
            m * m <= usize::MAX,
            m * n <= usize::MAX,
            full_iteration == hh_rounds(mat@),
            q@ == hh_state(mat@, i as nat).q,
            a@ == hh_state(mat@, i as nat).a,
    {
        let ghost state = hh_state(mat@, i as nat);
        proof {
            lemma_hh_state_shape(mat@, i as nat);
        }
        // create Householder vector
        let x = vstd::slice::slice_subrange(a.data_column(i), i, m);
        let alpha = l2_norm_of_vector(x).neg().mul(x[0].sign());
        let mut u: Vec<T::Elem> = Vec::new();
        for k in 0..(m - i)
            invariant
                i < m,
                x@.len() == m - i,
                u@ == x@.take(k as int),
        {
            u.push(x[k]);
            assert(u@ =~= x@.take(k + 1));
        }
        proof {
            assert(x@.take((m - i) as int) =~= x@);
        }
        u.set(0, u[0].sub(alpha));
        let ghost shifted = u@;
        let u_norm = l2_norm_of_vector(u.as_slice());
        for k in 0..(m - i)
            invariant
                i < m,
                shifted.len() == m - i,
                u@.len() == m - i,
                forall|j: int|
                    0 <= j < m - i ==> #[trigger] u@[j] == (if j < k {
                        shifted[j].div_spec(u_norm)
                    } else {
                        shifted[j]
                    }),
        {
            u.set(k, u[k].div(u_norm));
        }
        proof {
            assert(u@ =~= hh_vector(state.a, i as int));
        }

        // Householder matrix Q_i = I - 2v*v^T
        let mut q_i = T::identity(m);
        proof {
            crate::matrix::lemma_from_fn_entries(
                m as nat,
                m as nat,
                |r: int, c: int| crate::matrix::unit_entry::<T::Elem>(r, c),
            );
        }
        for j in 0..(m - i)
            invariant
                i < m,
                u@.len() == m - i,
                q_i@.wf(),
                q_i@.rows == m,
                q_i@.cols == m,
                forall|r: int, c: int|
                    0 <= r < m && 0 <= c < m ==> #[trigger] q_i@.at(r, c) == (if r < i + j {
                        reflector_entry(u@, i as int, r, c)
                    } else {
                        crate::matrix::unit_entry::<T::Elem>(r, c)
                    }),
        {
            for k in 0..(m - i)
                invariant
                    i < m,
                    j < m - i,
                    u@.len() == m - i,
                    q_i@.wf(),
                    q_i@.rows == m,
                    q_i@.cols == m,
                    forall|r: int, c: int|
                        0 <= r < m && 0 <= c < m ==> #[trigger] q_i@.at(r, c) == (if r < i + j || (r
                            == i + j && c < i + k) {
                            reflector_entry(u@, i as int, r, c)
                        } else {
                            crate::matrix::unit_entry::<T::Elem>(r, c)
                        }),
            {
                let q_i_v = q_i.elem(i + j, i + k);
                let vvt = u[j].mul(u[k]);
                let ghost before = q_i@;
                let value = q_i_v.sub(vvt).sub(vvt);
                q_i.set_elem(i + j, i + k, value);
                proof {
                    crate::matrix::lemma_set_entries(before, i + j, i + k, value);
                }
            }
        }
        proof {
            let want = reflector(m as nat, u@, i as int);
            crate::matrix::lemma_from_fn_entries(
                m as nat,
                m as nat,
                |r: int, c: int| reflector_entry(u@, i as int, r, c),
            );
            crate::matrix::lemma_view_ext(q_i@, want);
        }

        // accumulate Q_i to Q and multiply Q_i onto A to eliminate elements
        q = crate::matrix::algebra::mul(&q_i, &q).unwrap();
        a = crate::matrix::algebra::mul(&q_i, &a).unwrap();
    }

    // At the end, we have `A = QX`
    // So `Q^T A = X`, which means that A is the R matrix
    // And Q^T is the actual Q matrix we want to have.
    proof {
        lemma_hh_state_shape(mat@, full_iteration as nat);
        crate::matrix::algebra_lemmas::lemma_transpose_entries(q@);
    }
    Ok(QRDecomposition { q: crate::matrix::algebra::tr(&q), r: a })
}

/// The triangular factor of the Gram-Schmidt decomposition has the shape of
/// the input and is exactly zero below its diagonal.
pub proof fn lemma_gs_r_is_upper_triangular<E: LikeNumber>(mat: MatrixView<E>, q: MatrixView<E>)
    ensures
        gs_r(mat, q).wf(),
        gs_r(mat, q).same_shape(mat),
        forall|r: int, c: int|
            0 <= c < r < mat.rows && c < mat.cols ==> #[trigger] gs_r(mat, q).at(r, c)
                == E::zero_spec(),
{
    crate::matrix::lemma_from_fn_entries(
        mat.rows,
        mat.cols,
        |r: int, c: int|
            if r <= c {
                dot_spec(q.col(r), mat.col(c), mat.rows)
            } else {
                E::zero_spec()
            },
    );
}

} // verus!
