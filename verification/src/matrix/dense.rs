//! A dense matrix over any element type.

use crate::matrix::{LikeNumber, Matrix, MatrixView};
use vstd::prelude::*;
use vstd::std_specs::cmp::PartialEqSpecImpl;

verus! {

/// A matrix that owns its entries in one vector, column by column.
#[derive(Debug)]
pub struct DenseMatrix<E: LikeNumber> {
    _data: Vec<E>,
    _row: usize,
    _column: usize,
}

/// Two entry sequences of length `n` compare equal entry by entry.
pub open spec fn entries_eq<E: LikeNumber>(a: Seq<E>, b: Seq<E>, n: int) -> bool {
    forall|i: int| 0 <= i < n ==> (#[trigger] a[i]).eq_spec(b[i])
}

impl<E: LikeNumber> DenseMatrix<E> {
    #[verifier::type_invariant]
    spec fn inv(&self) -> bool {
        self._data@.len() == self._row * self._column
    }
}

impl<E: LikeNumber> Clone for DenseMatrix<E> {
    fn clone(&self) -> (m: Self)
        ensures
            m@ == self@,
    {
        Self::new(self._row, self._column, self.data())
    }
}

impl<E: LikeNumber> PartialEq for DenseMatrix<E> {
    /// Two matrices are equal when they have the same shape and their entries
    /// compare equal one by one.
    fn eq(&self, other: &Self) -> (r: bool) {
        proof {
            use_type_invariant(self);
            use_type_invariant(other);
        }
        if self._row != other._row || self._column != other._column {
            return false;
        }
        let n = self._data.len();
        let mut i: usize = 0;
        while i < n
            invariant
                i <= n,
                n == self._data@.len(),
                n == other._data@.len(),
                entries_eq(self._data@, other._data@, i as int),
            decreases n - i,
        {
            if !self._data[i].is_eq(&other._data[i]) {
                return false;
            }
            i += 1;
        }
        true
    }
}

impl<E: LikeNumber> PartialEqSpecImpl for DenseMatrix<E> {
    open spec fn obeys_eq_spec() -> bool {
        true
    }

    open spec fn eq_spec(&self, other: &Self) -> bool {
        &&& self@.same_shape(other@)
        &&& entries_eq(self@.data, other@.data, self@.data.len() as int)
    }
}

impl<E: LikeNumber> Matrix for DenseMatrix<E> {
    type Elem = E;

    closed spec fn view(&self) -> MatrixView<E> {
        MatrixView { rows: self._row as nat, cols: self._column as nat, data: self._data@ }
    }

    fn row(&self) -> (n: usize) {
        proof {
            use_type_invariant(self);
        }
        self._row
    }

    fn column(&self) -> (n: usize) {
        proof {
            use_type_invariant(self);
        }
        self._column
    }

    fn idx(&self, r: usize, c: usize) -> (i: usize) {
        proof {
            use_type_invariant(self);
            assert(self._data.len() == self._data@.len());
            crate::matrix::layout::lemma_offset_in_range(
                self._row as int,
                self._column as int,
                r as int,
                c as int,
            );
        }
        r + c * self._row
    }

    fn data(&self) -> (d: &[E]) {
        proof {
            use_type_invariant(self);
        }
        self._data.as_slice()
    }

    fn elem(&self, r: usize, c: usize) -> (e: E) {
        let i = self.idx(r, c);
        self._data[i]
    }

    fn set_elem(&mut self, r: usize, c: usize, value: E) {
        proof {
            use_type_invariant(&*self);
        }
        let i = self.idx(r, c);
        self._data[i] = value;
        proof {
            crate::matrix::lemma_set_entries(old(self)@, r as int, c as int, value);
        }
    }

    fn data_column(&self, c: usize) -> (d: &[E]) {
        proof {
            use_type_invariant(self);
            assert(self._data.len() == self._data@.len());
            if self._row > 0 {
                crate::matrix::layout::lemma_offset_in_range(
                    self._row as int,
                    self._column as int,
                    0,
                    c as int,
                );
            } else {
                assert(c * self._row == 0 && (c + 1) * self._row == 0) by (nonlinear_arith)
                    requires
                        self._row == 0,
                ;
            }
        }
        let start = c * self._row;
        let end = start + self._row;
        vstd::slice::slice_subrange(self._data.as_slice(), start, end)
    }

    fn new(row: usize, column: usize, data: &[E]) -> (m: Self) {
        let n = data.len();
        let mut copy: Vec<E> = Vec::with_capacity(n);
        let mut i: usize = 0;
        while i < n
            invariant
                i <= n,
                n == data@.len(),
                copy@ == data@.take(i as int),
            decreases n - i,
        {
            copy.push(data[i]);
            i += 1;
            assert(copy@ =~= data@.take(i as int));
        }
        assert(data@.take(n as int) =~= data@);
        DenseMatrix { _data: copy, _row: row, _column: column }
    }

    fn from_vec(row: usize, column: usize, data: Vec<E>) -> (m: Self) {
        DenseMatrix { _data: data, _row: row, _column: column }
    }

    fn zero(row: usize, column: usize) -> (m: Self) {
        let n = row * column;
        let mut data: Vec<E> = Vec::with_capacity(n);
        let mut i: usize = 0;
        while i < n
            invariant
                i <= n,
                data@ == Seq::new(i as nat, |k: int| E::zero_spec()),
            decreases n - i,
        {
            data.push(E::zero());
            i += 1;
            assert(data@ =~= Seq::new(i as nat, |k: int| E::zero_spec()));
        }
        assert(data@ =~= crate::matrix::zero_view::<E>(row as nat, column as nat).data);
        DenseMatrix { _data: data, _row: row, _column: column }
    }

    fn identity(n: usize) -> (m: Self) {
        let mut mat = Self::zero(n, n);
        proof {
            assert forall|i: int, j: int| 0 <= i < n && 0 <= j < n implies #[trigger] mat@.at(i, j)
                == E::zero_spec() by {
                crate::matrix::lemma_from_fn_at(
                    n as nat,
                    n as nat,
                    |r: int, c: int| E::zero_spec(),
                    i,
                    j,
                );
            }
        }
        let mut c: usize = 0;
        while c < n
            invariant
                c <= n,
                mat@.wf(),
                mat@.rows == n,
                mat@.cols == n,
                forall|i: int, j: int|
                    0 <= i < n && 0 <= j < n ==> #[trigger] mat@.at(i, j) == (if i == j && i < c {
                        E::one_spec()
                    } else {
                        E::zero_spec()
                    }),
            decreases n - c,
        {
            let ghost before = mat@;
            mat.set_elem(c, c, E::one());
            proof {
                crate::matrix::lemma_set_entries(before, c as int, c as int, E::one_spec());
                assert forall|i: int, j: int| 0 <= i < n && 0 <= j < n implies #[trigger] mat@.at(
                    i,
                    j,
                ) == (if i == j && i < c + 1 {
                    E::one_spec()
                } else {
                    E::zero_spec()
                }) by {
                    crate::matrix::layout::lemma_offset_in_range(n as int, n as int, i, j);
                    crate::matrix::layout::lemma_offset_in_range(n as int, n as int, c as int, c as int);
                    crate::matrix::layout::lemma_offset_split(n as int, i, j);
                    crate::matrix::layout::lemma_offset_split(n as int, c as int, c as int);
                    assert(before.at(i, j) == (if i == j && i < c {
                        E::one_spec()
                    } else {
                        E::zero_spec()
                    }));
                }
            }
            c += 1;
        }
        proof {
            let want = crate::matrix::identity_view::<E>(n as nat);
            assert forall|i: int, j: int| mat@.has(i, j) implies mat@.at(i, j) == want.at(i, j) by {
                crate::matrix::lemma_from_fn_at(
                    n as nat,
                    n as nat,
                    |r: int, c: int| crate::matrix::unit_entry::<E>(r, c),
                    i,
                    j,
                );
            }
            crate::matrix::lemma_view_ext(mat@, want);
        }
        mat
    }
}

} // verus!
