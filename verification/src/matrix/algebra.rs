//! The matrix algebra: sums, products, transposes and comparisons.

use crate::error::{JolinError, JolinErrorKind};
use crate::matrix::{LikeNumber, Matrix, MatrixView};
use vstd::prelude::*;

verus! {

/// The entry-wise sum of two matrices of one shape.
pub open spec fn add_view<E: LikeNumber>(a: MatrixView<E>, b: MatrixView<E>) -> MatrixView<E> {
    MatrixView {
        rows: a.rows,
        cols: a.cols,
        data: Seq::new(a.data.len(), |k: int| a.data[k].add_spec(b.data[k])),
    }
}

/// The entry-wise difference of two matrices of one shape.
pub open spec fn sub_view<E: LikeNumber>(a: MatrixView<E>, b: MatrixView<E>) -> MatrixView<E> {
    MatrixView {
        rows: a.rows,
        cols: a.cols,
        data: Seq::new(a.data.len(), |k: int| a.data[k].sub_spec(b.data[k])),
    }
}

/// The entry-wise negation of a matrix.
pub open spec fn neg_view<E: LikeNumber>(a: MatrixView<E>) -> MatrixView<E> {
    MatrixView { rows: a.rows, cols: a.cols, data: Seq::new(a.data.len(), |k: int| a.data[k].neg_spec()) }
}

/// Adding two matrices of the same shape
///
/// A shape mismatching error will be returned if their shapes don't match.
pub fn add<T: Matrix>(a: &T, b: &T) -> (res: Result<T, JolinError>)
    ensures
        match res {
            Ok(m) => a@.same_shape(b@) && m@ == add_view(a@, b@),
            Err(e) => !a@.same_shape(b@) && e.spec_kind() == JolinErrorKind::ShapeMismatching,
        },
{
    if a.row() != b.row() || a.column() != b.column() {
        return Err(JolinError::shape_mismatching());
    }
    let mut data: Vec<T::Elem> = Vec::new();
    let row = a.row();
    let column = b.column();
    for c in 0..column
        invariant
            a@.wf(),
            b@.wf(),
            a@.same_shape(b@),
            row == a@.rows,
            column == a@.cols,
            data@.len() == c * row,
            forall|k: int| 0 <= k < data@.len() ==> data@[k] == a@.data[k].add_spec(b@.data[k]),
    {
        for r in 0..row
            invariant
                a@.wf(),
                b@.wf(),
                a@.same_shape(b@),
                row == a@.rows,
                column == a@.cols,
                c < column,
                data@.len() == r + c * row,
                forall|k: int| 0 <= k < data@.len() ==> data@[k] == a@.data[k].add_spec(b@.data[k]),
        {
            data.push(a.elem(r, c).add(b.elem(r, c)));
        }
        proof {
            crate::matrix::layout::lemma_next_column(row as int, c as int);
        }
    }
    proof {
        assert(column * row == row * column) by (nonlinear_arith);
        assert(data@ =~= add_view(a@, b@).data);
    }
    Ok(T::from_vec(row, column, data))
}

/// Get the negative of the matrix
pub fn neg<T: Matrix>(a: &T) -> (m: T)
    ensures
        m@ == neg_view(a@),
{
    let src = a.data();
    let n = src.len();
    let mut data: Vec<T::Elem> = Vec::new();
    for i in 0..n
        invariant
            n == src@.len(),
            data@.len() == i,
            forall|k: int| 0 <= k < i ==> data@[k] == src@[k].neg_spec(),
    {
        data.push(src[i].neg());
    }
    proof {
        assert(data@ =~= neg_view(a@).data);
    }
    T::from_vec(a.row(), a.column(), data)
}

/// Substract a matrix from another matrix
///
/// A shape mismatching error will be returned if their shapes don't match.
pub fn sub<T: Matrix>(left: &T, right: &T) -> (res: Result<T, JolinError>)
    ensures
        match res {
            Ok(m) => left@.same_shape(right@) && m@ == sub_view(left@, right@),
            Err(e) => !left@.same_shape(right@) && e.spec_kind()
                == JolinErrorKind::ShapeMismatching,
        },
{
    if left.row() != right.row() || left.column() != right.column() {
        return Err(JolinError::shape_mismatching());
    }
    let mut data: Vec<T::Elem> = Vec::new();
    let row = left.row();
    let column = left.column();
    for c in 0..column
        invariant
            left@.wf(),
            right@.wf(),
            left@.same_shape(right@),
            row == left@.rows,
            column == left@.cols,
            data@.len() == c * row,
            forall|k: int|
                0 <= k < data@.len() ==> data@[k] == left@.data[k].sub_spec(right@.data[k]),
    {
        for r in 0..row
            invariant
                left@.wf(),
                right@.wf(),
                left@.same_shape(right@),
                row == left@.rows,
                column == left@.cols,
                c < column,
                data@.len() == r + c * row,
                forall|k: int|
                    0 <= k < data@.len() ==> data@[k] == left@.data[k].sub_spec(right@.data[k]),
        {
            data.push(left.elem(r, c).sub(right.elem(r, c)));
        }
        proof {
            crate::matrix::layout::lemma_next_column(row as int, c as int);
        }
    }
    proof {
        assert(column * row == row * column) by (nonlinear_arith);
        assert(data@ =~= sub_view(left@, right@).data);
    }
    Ok(T::from_vec(row, column, data))
}

/// The sum of the first `n` products `left[r, k] * right[k, c]`, accumulated
/// from zero in the order of `k`.
pub open spec fn dot_prefix<E: LikeNumber>(
    left: MatrixView<E>,
    right: MatrixView<E>,
    r: int,
    c: int,
    n: nat,
) -> E
    decreases n,
{
    if n == 0 {
        E::zero_spec()
    } else {
        dot_prefix(left, right, r, c, (n - 1) as nat).add_spec(
            left.at(r, n - 1).mul_spec(right.at(n - 1, c)),
        )
    }
}

/// The matrix product: each entry is the dot product of a row of `left` and
/// a column of `right`.
pub open spec fn mul_view<E: LikeNumber>(left: MatrixView<E>, right: MatrixView<E>) -> MatrixView<E> {
    MatrixView::from_fn(
        left.rows,
        right.cols,
        |r: int, c: int| dot_prefix(left, right, r, c, left.cols),
    )
}

/// The transpose: entry `(r, c)` is entry `(c, r)` of `a`.
pub open spec fn tr_view<E>(a: MatrixView<E>) -> MatrixView<E> {
    MatrixView::from_fn(a.cols, a.rows, |r: int, c: int| a.at(c, r))
}

/// Multiple two matrices.
///
/// A shape mismatching error will be returned unless `left` has as many
/// columns as `right` has rows.
pub fn mul<T: Matrix>(left: &T, right: &T) -> (res: Result<T, JolinError>)
    requires
        left@.cols == right@.rows ==> left@.rows * right@.cols <= usize::MAX,
    ensures
        match res {
            Ok(m) => left@.cols == right@.rows && m@ == mul_view(left@, right@),
            Err(e) => left@.cols != right@.rows && e.spec_kind()
                == JolinErrorKind::ShapeMismatching,
        },
{
    if left.column() != right.row() {
        return Err(JolinError::shape_mismatching());
    }
    let rows = left.row();
    let cols = right.column();
    let inner = left.column();
    let mut ans = T::zero(rows, cols);
    proof {
        crate::matrix::lemma_from_fn_entries(
            rows as nat,
            cols as nat,
            |r: int, c: int| T::Elem::zero_spec(),
        );
    }
    for c in 0..cols
        invariant
            left@.wf(),
            right@.wf(),
            rows == left@.rows,
            cols == right@.cols,
            inner == left@.cols,
            inner == right@.rows,
            ans@.wf(),
            ans@.rows == rows,
            ans@.cols == cols,
            forall|i: int, j: int|
                0 <= i < rows && 0 <= j < cols ==> #[trigger] ans@.at(i, j) == (if j < c {
                    dot_prefix(left@, right@, i, j, inner as nat)
                } else {
                    T::Elem::zero_spec()
                }),
    {
        for r in 0..rows
            invariant
                left@.wf(),
                right@.wf(),
                rows == left@.rows,
                cols == right@.cols,
                inner == left@.cols,
                inner == right@.rows,
                c < cols,
                ans@.wf(),
                ans@.rows == rows,
                ans@.cols == cols,
                forall|i: int, j: int|
                    0 <= i < rows && 0 <= j < cols ==> #[trigger] ans@.at(i, j) == (if j < c || (j
                        == c && i < r) {
                        dot_prefix(left@, right@, i, j, inner as nat)
                    } else {
                        T::Elem::zero_spec()
                    }),
        {
            let mut t = ans.elem(r, c);
            for k in 0..inner
                invariant
                    left@.wf(),
                    right@.wf(),
                    rows == left@.rows,
                    cols == right@.cols,
                    inner == left@.cols,
                    inner == right@.rows,
                    r < rows,
                    c < cols,
                    t == dot_prefix(left@, right@, r as int, c as int, k as nat),
            {
                t = t.add(left.elem(r, k).mul(right.elem(k, c)));
            }
            let ghost before = ans@;
            ans.set_elem(r, c, t);
            proof {
                crate::matrix::lemma_set_entries(before, r as int, c as int, t);
            }
        }
    }
    proof {
        let want = mul_view(left@, right@);
        crate::matrix::lemma_from_fn_entries(
            left@.rows,
            right@.cols,
            |r: int, c: int| dot_prefix(left@, right@, r, c, left@.cols),
        );
        crate::matrix::lemma_view_ext(ans@, want);
    }
    Ok(ans)
}

/// Transpose of the matrix
pub fn tr<T: Matrix>(a: &T) -> (m: T)
    ensures
        m@ == tr_view(a@),
{
    let rows = a.row();
    let cols = a.column();
    let entries = a.data();
    proof {
        assert(cols * rows == rows * cols) by (nonlinear_arith);
        assert(entries@.len() == entries.len());
    }
    let mut ans = T::zero(cols, rows);
    proof {
        crate::matrix::lemma_from_fn_entries(
            cols as nat,
            rows as nat,
            |r: int, c: int| T::Elem::zero_spec(),
        );
    }
    for r in 0..rows
        invariant
            a@.wf(),
            rows == a@.rows,
            cols == a@.cols,
            ans@.wf(),
            ans@.rows == cols,
            ans@.cols == rows,
            forall|i: int, j: int|
                0 <= i < cols && 0 <= j < r ==> #[trigger] ans@.at(i, j) == a@.at(j, i),
    {
        for c in 0..cols
            invariant
                a@.wf(),
                rows == a@.rows,
                cols == a@.cols,
                r < rows,
                ans@.wf(),
                ans@.rows == cols,
                ans@.cols == rows,
                forall|i: int, j: int|
                    0 <= i < cols && 0 <= j < rows && (j < r || (j == r && i < c))
                        ==> #[trigger] ans@.at(i, j) == a@.at(j, i),
        {
            let ghost before = ans@;
            ans.set_elem(c, r, a.elem(r, c));
            proof {
                crate::matrix::lemma_set_entries(before, c as int, r as int, a@.at(r as int, c as int));
            }
        }
    }
    proof {
        crate::matrix::lemma_from_fn_entries(a@.cols, a@.rows, |r: int, c: int| a@.at(c, r));
        crate::matrix::lemma_view_ext(ans@, tr_view(a@));
    }
    ans
}

/// Apply element-wise operation on a matrix to create a new matrix
///
/// The result has the shape of `a`, and each of its entries is what `f`
/// returned for the entry of `a` in the same place.
pub fn elemwise<T: Matrix, F: Fn(&T::Elem) -> T::Elem>(a: &T, f: F) -> (m: T)
    requires
        forall|k: int| 0 <= k < a@.data.len() ==> call_requires(f, (&#[trigger] a@.data[k],)),
    ensures
        m@.wf(),
        m@.same_shape(a@),
        forall|k: int|
            0 <= k < a@.data.len() ==> call_ensures(f, (&a@.data[k],), #[trigger] m@.data[k]),
{
    let src = a.data();
    let n = src.len();
    let mut data: Vec<T::Elem> = Vec::new();
    for i in 0..n
        invariant
            n == src@.len(),
            src@ == a@.data,
            data@.len() == i,
            forall|k: int| 0 <= k < a@.data.len() ==> call_requires(f, (&#[trigger] a@.data[k],)),
            forall|k: int| 0 <= k < i ==> call_ensures(f, (&src@[k],), #[trigger] data@[k]),
    {
        data.push(f(&src[i]));
    }
    T::from_vec(a.row(), a.column(), data)
}

/// Whether every pair of entries in the same place differs by at most `eps`.
pub open spec fn within_error<E: LikeNumber>(a: MatrixView<E>, b: MatrixView<E>, eps: E, n: int) -> bool {
    forall|k: int| 0 <= k < n ==> !(#[trigger] a.data[k]).sub_spec(b.data[k]).abs_spec().gt_spec(eps)
}

/// Whether two matrices are equal with the allowed error
pub fn eq_with_error<T: Matrix>(a: &T, b: &T, eps: T::Elem) -> (r: bool)
    ensures
        r == (a@.same_shape(b@) && within_error(a@, b@, eps, a@.data.len() as int)),
{
    // different shape
    if a.row() != b.row() || a.column() != b.column() {
        return false;
    }
    let da = a.data();
    let db = b.data();
    let n = da.len();
    for idx in 0..n
        invariant
            n == da@.len(),
            n == db@.len(),
            da@ == a@.data,
            db@ == b@.data,
            within_error(a@, b@, eps, idx as int),
    {
        if da[idx].sub(db[idx]).abs().is_gt(&eps) {
            return false;
        }
    }
    true
}

} // verus!
