//! Concatenation of matrices side by side and on top of each other.

use crate::error::{JolinError, JolinErrorKind};
use crate::matrix::{Matrix, MatrixView};
use vstd::prelude::*;

verus! {

/// The columns of the first `k` matrices, counted together.
pub open spec fn total_cols<T: Matrix>(mats: Seq<&T>, k: nat) -> nat
    decreases k,
{
    if k == 0 {
        0
    } else {
        total_cols(mats, (k - 1) as nat) + mats[k - 1]@.cols
    }
}

/// The rows of the first `k` matrices, counted together.
pub open spec fn total_rows<T: Matrix>(mats: Seq<&T>, k: nat) -> nat
    decreases k,
{
    if k == 0 {
        0
    } else {
        total_rows(mats, (k - 1) as nat) + mats[k - 1]@.rows
    }
}

/// The entries of the first `k` matrices, one matrix after the other.
pub open spec fn joined_data<T: Matrix>(mats: Seq<&T>, k: nat) -> Seq<T::Elem>
    decreases k,
{
    if k == 0 {
        Seq::empty()
    } else {
        joined_data(mats, (k - 1) as nat) + mats[k - 1]@.data
    }
}

/// Column `c` of each of the first `k` matrices, one below the other.
pub open spec fn stacked_column<T: Matrix>(mats: Seq<&T>, c: int, k: nat) -> Seq<T::Elem>
    decreases k,
{
    if k == 0 {
        Seq::empty()
    } else {
        stacked_column(mats, c, (k - 1) as nat) + mats[k - 1]@.col(c)
    }
}

/// The first `c` stacked columns, one after the other.
pub open spec fn stacked_data<T: Matrix>(mats: Seq<&T>, c: nat) -> Seq<T::Elem>
    decreases c,
{
    if c == 0 {
        Seq::empty()
    } else {
        stacked_data(mats, (c - 1) as nat) + stacked_column(mats, c - 1, mats.len())
    }
}

/// All matrices have as many rows as the first.
pub open spec fn same_rows<T: Matrix>(mats: Seq<&T>) -> bool {
    forall|i: int| 0 <= i < mats.len() ==> (#[trigger] mats[i])@.rows == mats[0]@.rows
}

/// All matrices have as many columns as the first.
pub open spec fn same_cols<T: Matrix>(mats: Seq<&T>) -> bool {
    forall|i: int| 0 <= i < mats.len() ==> (#[trigger] mats[i])@.cols == mats[0]@.cols
}

/// The matrices side by side, in their order.
pub open spec fn hcat_view<T: Matrix>(mats: Seq<&T>) -> MatrixView<T::Elem> {
    MatrixView {
        rows: mats[0]@.rows,
        cols: total_cols(mats, mats.len()),
        data: joined_data(mats, mats.len()),
    }
}

/// The matrices on top of each other, in their order.
pub open spec fn vcat_view<T: Matrix>(mats: Seq<&T>) -> MatrixView<T::Elem> {
    MatrixView {
        rows: total_rows(mats, mats.len()),
        cols: mats[0]@.cols,
        data: stacked_data(mats, mats[0]@.cols),
    }
}

/// The joined entries of matrices with `rows` rows each fill `rows` times
/// their columns.
pub proof fn lemma_joined_len<T: Matrix>(mats: Seq<&T>, k: nat, rows: nat)
    requires
        k <= mats.len(),
        forall|i: int| 0 <= i < k ==> (#[trigger] mats[i])@.wf() && mats[i]@.rows == rows,
    ensures
        joined_data(mats, k).len() == rows * total_cols(mats, k),
    decreases k,
{
    if k > 0 {
        lemma_joined_len(mats, (k - 1) as nat, rows);
        let before = total_cols(mats, (k - 1) as nat);
        let last = mats[k - 1];
        let cols = last@.cols;
        assert(last@.wf() && last@.rows == rows);
        assert(joined_data(mats, k).len() == rows * before + rows * cols);
        assert(rows * (before + cols) == rows * before + rows * cols) by (nonlinear_arith);
    } else {
        let none = total_cols(mats, 0);
        assert(rows * none == 0) by (nonlinear_arith)
            requires
                none == 0,
        ;
    }
}

/// A stacked column is as long as the rows of its matrices together.
pub proof fn lemma_stacked_column_len<T: Matrix>(mats: Seq<&T>, c: int, k: nat)
    requires
        k <= mats.len(),
        forall|i: int| 0 <= i < k ==> (#[trigger] mats[i])@.wf() && c < mats[i]@.cols,
        0 <= c,
    ensures
        stacked_column(mats, c, k).len() == total_rows(mats, k),
    decreases k,
{
    if k > 0 {
        lemma_stacked_column_len(mats, c, (k - 1) as nat);
        crate::matrix::lemma_col_entries(mats[k - 1]@, c);
    }
}

/// The first `c` stacked columns fill `c` times the rows of all matrices.
pub proof fn lemma_stacked_len<T: Matrix>(mats: Seq<&T>, c: nat, cols: nat)
    requires
        c <= cols,
        forall|i: int| 0 <= i < mats.len() ==> (#[trigger] mats[i])@.wf() && mats[i]@.cols == cols,
    ensures
        stacked_data(mats, c).len() == total_rows(mats, mats.len()) * c,
    decreases c,
{
    if c > 0 {
        lemma_stacked_len(mats, (c - 1) as nat, cols);
        lemma_stacked_column_len(mats, c - 1, mats.len());
        let rows = total_rows(mats, mats.len()) as int;
        let done = (c - 1) as int;
        assert(stacked_data(mats, c).len() == rows * done + rows);
        assert(rows * (done + 1) == rows * done + rows) by (nonlinear_arith);
    } else {
        let rows = total_rows(mats, mats.len()) as int;
        assert(rows * 0 == 0) by (nonlinear_arith);
    }
}

/// Append the entries of `part` to `data`.
fn append_slice<E: Copy>(data: &mut Vec<E>, part: &[E])
    ensures
        final(data)@ == old(data)@ + part@,
{
    let n = part.len();
    for i in 0..n
        invariant
            n == part@.len(),
            data@ == old(data)@ + part@.take(i as int),
    {
        data.push(part[i]);
        assert(data@ =~= old(data)@ + part@.take(i + 1));
    }
    assert(part@.take(n as int) =~= part@);
}

/// Horizonally concatenate matrices
///
/// A not enough input error will be returned for an empty list, and a shape
/// mismatching error if the row counts of the input matrices don't match.
pub fn hcat<T: Matrix>(mat: &[&T]) -> (res: Result<T, JolinError>)
    requires
        mat@.len() > 0 && same_rows(mat@) ==> total_cols(mat@, mat@.len()) <= usize::MAX,
    ensures
        match res {
            Ok(m) => mat@.len() > 0 && same_rows(mat@) && m@ == hcat_view(mat@),
            Err(e) => if mat@.len() == 0 {
                e.spec_kind() == JolinErrorKind::NotEnoughInput
            } else {
                e.spec_kind() == JolinErrorKind::ShapeMismatching && !same_rows(mat@)
            },
        },
{
    if mat.len() < 1 {
        return Err(JolinError::not_enough_input());
    }
    let count = mat.len();
    let new_row = mat[0].row();
    for i in 0..count
        invariant
            count == mat@.len(),
            new_row == mat@[0]@.rows,
            forall|k: int| 0 <= k < i ==> (#[trigger] mat@[k])@.rows == new_row && mat@[k]@.wf(),
    {
        if mat[i].row() != new_row {
            return Err(JolinError::shape_mismatching());
        }
    }

    // compute new column size
    let mut new_column: usize = 0;
    for i in 0..count
        invariant
            count == mat@.len(),
            new_column == total_cols(mat@, i as nat),
            total_cols(mat@, count as nat) <= usize::MAX,
    {
        proof {
            lemma_total_cols_grows(mat@, (i + 1) as nat, count as nat);
        }
        new_column = new_column + mat[i].column();
    }

    let mut data: Vec<T::Elem> = Vec::new();
    for i in 0..count
        invariant
            count == mat@.len(),
            data@ == joined_data(mat@, i as nat),
    {
        append_slice(&mut data, mat[i].data());
    }
    proof {
        lemma_joined_len(mat@, count as nat, new_row as nat);
    }
    Ok(T::from_vec(new_row, new_column, data))
}

/// The columns counted so far never exceed the columns of all.
pub proof fn lemma_total_cols_grows<T: Matrix>(mats: Seq<&T>, i: nat, k: nat)
    requires
        i <= k,
    ensures
        total_cols(mats, i) <= total_cols(mats, k),
    decreases k,
{
    if i < k {
        lemma_total_cols_grows(mats, i, (k - 1) as nat);
    }
}

/// The rows counted so far never exceed the rows of all.
pub proof fn lemma_total_rows_grows<T: Matrix>(mats: Seq<&T>, i: nat, k: nat)
    requires
        i <= k,
    ensures
        total_rows(mats, i) <= total_rows(mats, k),
    decreases k,
{
    if i < k {
        lemma_total_rows_grows(mats, i, (k - 1) as nat);
    }
}

/// Vertically concatenate two matrices
///
/// A not enough input error will be returned for an empty list, and a shape
/// mismatching error if the column counts of the input matrices don't match.
pub fn vcat<T: Matrix>(mat: &[&T]) -> (res: Result<T, JolinError>)
    requires
        mat@.len() > 0 && same_cols(mat@) ==> total_rows(mat@, mat@.len()) <= usize::MAX,
    ensures
        match res {
            Ok(m) => mat@.len() > 0 && same_cols(mat@) && m@ == vcat_view(mat@),
            Err(e) => if mat@.len() == 0 {
                e.spec_kind() == JolinErrorKind::NotEnoughInput
            } else {
                e.spec_kind() == JolinErrorKind::ShapeMismatching && !same_cols(mat@)
            },
        },
{
    if mat.len() < 1 {
        return Err(JolinError::not_enough_input());
    }
    let count = mat.len();
    let new_column = mat[0].column();
    for i in 0..count
        invariant
            count == mat@.len(),
            new_column == mat@[0]@.cols,
            forall|k: int| 0 <= k < i ==> (#[trigger] mat@[k])@.cols == new_column && mat@[k]@.wf(),
    {
        if mat[i].column() != new_column {
            return Err(JolinError::shape_mismatching());
        }
    }

    let mut data: Vec<T::Elem> = Vec::new();

    // compute new column size
    let mut new_row: usize = 0;
    for i in 0..count
        invariant
            count == mat@.len(),
            new_row == total_rows(mat@, i as nat),
            total_rows(mat@, count as nat) <= usize::MAX,
    {
        proof {
            lemma_total_rows_grows(mat@, (i + 1) as nat, count as nat);
        }
        new_row = new_row + mat[i].row();
    }

    for c in 0..new_column
        invariant
            count == mat@.len(),
            same_cols(mat@),
            new_column == mat@[0]@.cols,
            data@ == stacked_data(mat@, c as nat),
    {
        let ghost before = data@;
        for i in 0..count
            invariant
                count == mat@.len(),
                same_cols(mat@),
                new_column == mat@[0]@.cols,
                c < new_column,
                data@ == before + stacked_column(mat@, c as int, i as nat),
        {
            append_slice(&mut data, mat[i].data_column(c));
            assert(data@ =~= before + stacked_column(mat@, c as int, (i + 1) as nat));
        }
    }
    proof {
        lemma_stacked_len(mat@, new_column as nat, new_column as nat);
    }
    Ok(T::from_vec(new_row, new_column, data))
}

} // verus!
