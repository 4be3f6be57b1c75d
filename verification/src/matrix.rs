//! The element and matrix contracts, and the shape-checked matrix algebra
//! built on them.

use vstd::prelude::*;

/// The matrix algebra: sums, products, transposes and comparisons
pub mod algebra;
/// What holds of the matrix algebra for every matrix
pub mod algebra_lemmas;
/// Concatenation of matrices side by side and on top of each other
pub mod concat;
/// A dense matrix over any element type
pub mod dense;
/// Facts about column-major indexing
pub mod layout;

pub use self::algebra::{add, elemwise, eq_with_error, mul, neg, sub, tr};
pub use self::concat::{hcat, vcat};
pub use self::dense::DenseMatrix;

verus! {

/// Trait for numbers that can be used as the elements of the matrix.
///
/// Each operation comes in two forms: a specification function that names the
/// value the operation yields, and the executable method, which must return
/// exactly that value. Nothing is assumed about the values themselves: an
/// implementation may round, saturate or produce not-a-number.
pub trait LikeNumber: Copy + Sized {
    /// The additive unit.
    spec fn zero_spec() -> Self;

    /// The multiplicative unit.
    spec fn one_spec() -> Self;

    /// The sum of two numbers.
    spec fn add_spec(self, rhs: Self) -> Self;

    /// The difference of two numbers.
    spec fn sub_spec(self, rhs: Self) -> Self;

    /// The product of two numbers.
    spec fn mul_spec(self, rhs: Self) -> Self;

    /// The quotient of two numbers.
    spec fn div_spec(self, rhs: Self) -> Self;

    /// The negated number.
    spec fn neg_spec(self) -> Self;

    /// Whether two numbers compare equal.
    spec fn eq_spec(self, rhs: Self) -> bool;

    /// Whether this number compares strictly greater than `rhs`.
    spec fn gt_spec(self, rhs: Self) -> bool;

    /// Whether this number compares strictly less than `rhs`.
    spec fn lt_spec(self, rhs: Self) -> bool;

    /// Whether this number compares greater than or equal to `rhs`.
    spec fn ge_spec(self, rhs: Self) -> bool;

    /// The absolute value (or modulus).
    spec fn abs_spec(self) -> Self;

    /// The square root.
    spec fn sqrt_spec(self) -> Self;

    /// The sign of the number times the unit.
    spec fn sign_spec(self) -> Self;

    /// The sine.
    spec fn sin_spec(self) -> Self;

    /// The cosine.
    spec fn cos_spec(self) -> Self;

    /// The natural logarithm.
    spec fn ln_spec(self) -> Self;

    /// Obtained the zero element
    fn zero() -> (r: Self)
        ensures
            r == Self::zero_spec(),
    ;

    /// Obtained the unit element
    fn one() -> (r: Self)
        ensures
            r == Self::one_spec(),
    ;

    /// `self + rhs`
    fn add(self, rhs: Self) -> (r: Self)
        ensures
            r == self.add_spec(rhs),
    ;

    /// `self - rhs`
    fn sub(self, rhs: Self) -> (r: Self)
        ensures
            r == self.sub_spec(rhs),
    ;

    /// `self * rhs`
    fn mul(self, rhs: Self) -> (r: Self)
        ensures
            r == self.mul_spec(rhs),
    ;

    /// `self / rhs`
    fn div(self, rhs: Self) -> (r: Self)
        ensures
            r == self.div_spec(rhs),
    ;

    /// `-self`
    fn neg(self) -> (r: Self)
        ensures
            r == self.neg_spec(),
    ;

    /// `self == rhs`
    fn is_eq(&self, rhs: &Self) -> (r: bool)
        ensures
            r == self.eq_spec(*rhs),
    ;

    /// `self > rhs`
    fn is_gt(&self, rhs: &Self) -> (r: bool)
        ensures
            r == self.gt_spec(*rhs),
    ;

    /// `self < rhs`
    fn is_lt(&self, rhs: &Self) -> (r: bool)
        ensures
            r == self.lt_spec(*rhs),
    ;

    /// `self >= rhs`
    fn is_ge(&self, rhs: &Self) -> (r: bool)
        ensures
            r == self.ge_spec(*rhs),
    ;

    /// Get the absolute value (or modulus) of the number
    fn abs(&self) -> (r: Self)
        ensures
            r == self.abs_spec(),
    ;

    /// Square root of the number
    fn sqrt(&self) -> (r: Self)
        ensures
            r == self.sqrt_spec(),
    ;

    /// Sign of the number times the unit. For zero, it could return either value.
    fn sign(&self) -> (r: Self)
        ensures
            r == self.sign_spec(),
            r == Self::one_spec() || r == Self::one_spec().neg_spec(),
    ;

    /// Trigonometric sine function `sin(x)` of the number
    fn sin(&self) -> (r: Self)
        ensures
            r == self.sin_spec(),
    ;

    /// Trigonometric cosine function `cos(x)` of the number
    fn cos(&self) -> (r: Self)
        ensures
            r == self.cos_spec(),
    ;

    /// Natural logarithm
    fn ln(&self) -> (r: Self)
        ensures
            r == self.ln_spec(),
    ;
}

/// The mathematical value of a matrix: its shape and its entries, stored
/// column by column.
pub struct MatrixView<E> {
    pub rows: nat,
    pub cols: nat,
    pub data: Seq<E>,
}

impl<E> MatrixView<E> {
    /// The entries fill the shape exactly.
    pub open spec fn wf(self) -> bool {
        self.data.len() == self.rows * self.cols
    }

    /// `(r, c)` names an entry of this matrix.
    pub open spec fn has(self, r: int, c: int) -> bool {
        0 <= r < self.rows && 0 <= c < self.cols
    }

    /// The entry in row `r` and column `c`.
    pub open spec fn at(self, r: int, c: int) -> E {
        self.data[r + c * self.rows]
    }

    /// Column `c`, top to bottom.
    pub open spec fn col(self, c: int) -> Seq<E> {
        self.data.subrange(c * self.rows, (c + 1) * self.rows)
    }

    /// Both matrices have the same number of rows and of columns.
    pub open spec fn same_shape(self, other: Self) -> bool {
        self.rows == other.rows && self.cols == other.cols
    }

    /// This matrix with the entry at `(r, c)` replaced by `value`.
    pub open spec fn set(self, r: int, c: int, value: E) -> Self {
        MatrixView { rows: self.rows, cols: self.cols, data: self.data.update(r + c * self.rows, value) }
    }

    /// The matrix of the given shape whose entry at `(r, c)` is `f(r, c)`.
    pub open spec fn from_fn(rows: nat, cols: nat, f: spec_fn(int, int) -> E) -> Self {
        MatrixView {
            rows,
            cols,
            data: Seq::new(rows * cols, |k: int| f(k % (rows as int), k / (rows as int))),
        }
    }
}

/// An in-range entry of `from_fn` is what the function gives for it.
pub proof fn lemma_from_fn_at<E>(rows: nat, cols: nat, f: spec_fn(int, int) -> E, r: int, c: int)
    requires
        0 <= r < rows,
        0 <= c < cols,
    ensures
        MatrixView::from_fn(rows, cols, f).wf(),
        MatrixView::from_fn(rows, cols, f).at(r, c) == f(r, c),
{
    self::layout::lemma_offset_in_range(rows as int, cols as int, r, c);
    self::layout::lemma_offset_split(rows as int, r, c);
}

/// Every entry of `from_fn` is what the function gives for it.
pub proof fn lemma_from_fn_entries<E>(rows: nat, cols: nat, f: spec_fn(int, int) -> E)
    ensures
        MatrixView::from_fn(rows, cols, f).wf(),
        MatrixView::from_fn(rows, cols, f).rows == rows,
        MatrixView::from_fn(rows, cols, f).cols == cols,
        forall|r: int, c: int|
            0 <= r < rows && 0 <= c < cols ==> #[trigger] MatrixView::from_fn(rows, cols, f).at(r, c)
                == f(r, c),
{
    assert forall|r: int, c: int| 0 <= r < rows && 0 <= c < cols implies #[trigger] MatrixView::from_fn(
        rows,
        cols,
        f,
    ).at(r, c) == f(r, c) by {
        lemma_from_fn_at(rows, cols, f, r, c);
    }
}

/// Replacing one entry changes that entry and no other.
pub proof fn lemma_set_entries<E>(m: MatrixView<E>, r: int, c: int, value: E)
    requires
        m.wf(),
        m.has(r, c),
    ensures
        m.set(r, c, value).wf(),
        m.set(r, c, value).same_shape(m),
        forall|i: int, j: int|
            m.has(i, j) ==> #[trigger] m.set(r, c, value).at(i, j) == (if i == r && j == c {
                value
            } else {
                m.at(i, j)
            }),
{
    self::layout::lemma_offset_in_range(m.rows as int, m.cols as int, r, c);
    self::layout::lemma_offset_split(m.rows as int, r, c);
    assert forall|i: int, j: int| m.has(i, j) implies #[trigger] m.set(r, c, value).at(i, j) == (if i
        == r && j == c {
        value
    } else {
        m.at(i, j)
    }) by {
        self::layout::lemma_offset_in_range(m.rows as int, m.cols as int, i, j);
        self::layout::lemma_offset_split(m.rows as int, i, j);
    }
}

/// Column `c` holds the entries `(0, c)`, `(1, c)`, and so on.
pub proof fn lemma_col_entries<E>(m: MatrixView<E>, c: int)
    requires
        m.wf(),
        0 <= c < m.cols,
    ensures
        m.col(c).len() == m.rows,
        forall|r: int| 0 <= r < m.rows ==> #[trigger] m.col(c)[r] == m.at(r, c),
{
    if m.rows > 0 {
        self::layout::lemma_offset_in_range(m.rows as int, m.cols as int, 0, c);
    } else {
        assert(c * m.rows == 0 && (c + 1) * m.rows == 0) by (nonlinear_arith)
            requires
                m.rows == 0,
        ;
    }
}

/// Two matrices of one shape whose entries agree are the same matrix.
pub proof fn lemma_view_ext<E>(a: MatrixView<E>, b: MatrixView<E>)
    requires
        a.wf(),
        b.wf(),
        a.same_shape(b),
        forall|r: int, c: int| a.has(r, c) ==> a.at(r, c) == b.at(r, c),
    ensures
        a == b,
{
    assert forall|k: int| 0 <= k < a.data.len() implies a.data[k] == b.data[k] by {
        self::layout::lemma_offset_join(a.rows as int, a.cols as int, k);
        let r = k % (a.rows as int);
        let c = k / (a.rows as int);
        assert(a.has(r, c));
        assert(a.at(r, c) == b.at(r, c));
    }
    assert(a.data =~= b.data);
}

/// Trait for all jolin matrices
///
/// All basic operations on matrices will be declared here. The view of a
/// matrix is always well formed: every method that reads a matrix says so.
pub trait Matrix: PartialEq + Clone + Sized {
    /// Element type
    type Elem: LikeNumber;

    /// The mathematical value of this matrix.
    spec fn view(&self) -> MatrixView<Self::Elem>;

    /// Row count of the matrix
    fn row(&self) -> (n: usize)
        ensures
            n == self@.rows,
            self@.wf(),
    ;

    /// Column count of the matrix
    fn column(&self) -> (n: usize)
        ensures
            n == self@.cols,
            self@.wf(),
    ;

    /// Get the index of the element in data vector with [r, c] indexing.
    fn idx(&self, r: usize, c: usize) -> (i: usize)
        requires
            self@.has(r as int, c as int),
        ensures
            i == r + c * self@.rows,
            i < self@.data.len(),
            self@.wf(),
    ;

    /// Get the reference to the data vector
    fn data(&self) -> (d: &[Self::Elem])
        ensures
            d@ == self@.data,
            self@.wf(),
    ;

    /// Get the element at [r, c]
    fn elem(&self, r: usize, c: usize) -> (e: Self::Elem)
        requires
            self@.has(r as int, c as int),
        ensures
            e == self@.at(r as int, c as int),
            self@.wf(),
    ;

    /// Overwrite the element at [r, c]; every other entry stays.
    fn set_elem(&mut self, r: usize, c: usize, value: Self::Elem)
        requires
            old(self)@.has(r as int, c as int),
        ensures
            final(self)@.wf(),
            final(self)@.same_shape(old(self)@),
            final(self)@ == old(self)@.set(r as int, c as int, value),
    ;

    /// Get reference to the column of c. No copy will occur as we are in column-major.
    fn data_column(&self, c: usize) -> (d: &[Self::Elem])
        requires
            c < self@.cols,
        ensures
            d@ == self@.col(c as int),
            d@.len() == self@.rows,
            self@.wf(),
    ;

    /// Create a matrix. Data should be stored in the **column-major** order.
    fn new(row: usize, column: usize, data: &[Self::Elem]) -> (m: Self)
        requires
            data@.len() == row * column,
        ensures
            m@ == (MatrixView { rows: row as nat, cols: column as nat, data: data@ }),
    ;

    /// Create a matrix by taking the ownership of the vector.
    ///
    /// Data should be stored in the **column-major** order.
    fn from_vec(row: usize, column: usize, data: Vec<Self::Elem>) -> (m: Self)
        requires
            data@.len() == row * column,
        ensures
            m@ == (MatrixView { rows: row as nat, cols: column as nat, data: data@ }),
    ;

    /// Zero matrix
    fn zero(row: usize, column: usize) -> (m: Self)
        requires
            row * column <= usize::MAX,
        ensures
            m@ == zero_view::<Self::Elem>(row as nat, column as nat),
    ;

    /// Identity matrix of shape n*n
    fn identity(n: usize) -> (m: Self)
        requires
            n * n <= usize::MAX,
        ensures
            m@ == identity_view::<Self::Elem>(n as nat),
    ;
}

/// The all-zero matrix of the given shape.
pub open spec fn zero_view<E: LikeNumber>(rows: nat, cols: nat) -> MatrixView<E> {
    MatrixView::from_fn(rows, cols, |r: int, c: int| E::zero_spec())
}

/// An entry of the identity matrix.
pub open spec fn unit_entry<E: LikeNumber>(r: int, c: int) -> E {
    if r == c {
        E::one_spec()
    } else {
        E::zero_spec()
    }
}

/// The identity matrix: the unit on the diagonal, zero elsewhere.
pub open spec fn identity_view<E: LikeNumber>(n: nat) -> MatrixView<E> {
    MatrixView::from_fn(
        n,
        n,
        |r: int, c: int| unit_entry::<E>(r, c),
    )
}

} // verus!
