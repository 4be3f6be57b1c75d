use jolin::decomp::lu::{lu, lu_with_tolerance, LUDecomposable, LUDecomposition};
use jolin::decomp::qr::{qr_gram_schmidt, qr_househoulder};
use jolin::det::{det, det_decomposable, det_from_lu, det_with_tolerance, permutation_order};
use jolin::error::{JolinError, JolinErrorKind};
use jolin::matrix::{
    add, elemwise, eq_with_error, hcat, mul, neg, sub, tr, vcat, DenseMatrix, LikeNumber, Matrix,
    MatrixView,
};
use jolin::random::{box_muller, normal_standard, uniform_standard, ElementStandardUniformProvider};
use rand::rngs::ThreadRng;
use rand::Rng;

/// 64-bit float point element
#[derive(Debug, Clone, Copy, PartialEq, PartialOrd)]
struct F64(f64);

impl LikeNumber for F64 {
    fn zero() -> Self {
        F64(0.0)
    }
    fn one() -> Self {
        F64(1.0)
    }
    fn add(self, rhs: Self) -> Self {
        F64(self.0 + rhs.0)
    }
    fn sub(self, rhs: Self) -> Self {
        F64(self.0 - rhs.0)
    }
    fn mul(self, rhs: Self) -> Self {
        F64(self.0 * rhs.0)
    }
    fn div(self, rhs: Self) -> Self {
        F64(self.0 / rhs.0)
    }
    fn neg(self) -> Self {
        F64(-self.0)
    }
    fn is_eq(&self, rhs: &Self) -> bool {
        self.0 == rhs.0
    }
    fn is_gt(&self, rhs: &Self) -> bool {
        self.0 > rhs.0
    }
    fn is_lt(&self, rhs: &Self) -> bool {
        self.0 < rhs.0
    }
    fn is_ge(&self, rhs: &Self) -> bool {
        self.0 >= rhs.0
    }
    fn abs(&self) -> Self {
        if self.0 > 0.0 {
            *self
        } else {
            F64(-self.0)
        }
    }
    fn sqrt(&self) -> Self {
        F64(self.0.sqrt())
    }
    fn sign(&self) -> Self {
        if self.0 >= 0.0 {
            F64(1.0)
        } else {
            F64(-1.0)
        }
    }
    fn sin(&self) -> Self {
        F64(self.0.sin())
    }
    fn cos(&self) -> Self {
        F64(self.0.cos())
    }
    fn ln(&self) -> Self {
        F64(self.0.ln())
    }

    // The specification twins are never run.
    fn zero_spec() -> Self {
        unreachable!()
    }
    fn one_spec() -> Self {
        unreachable!()
    }
    fn add_spec(self, _rhs: Self) -> Self {
        unreachable!()
    }
    fn sub_spec(self, _rhs: Self) -> Self {
        unreachable!()
    }
    fn mul_spec(self, _rhs: Self) -> Self {
        unreachable!()
    }
    fn div_spec(self, _rhs: Self) -> Self {
        unreachable!()
    }
    fn neg_spec(self) -> Self {
        unreachable!()
    }
    fn eq_spec(self, _rhs: Self) -> bool {
        unreachable!()
    }
    fn gt_spec(self, _rhs: Self) -> bool {
        unreachable!()
    }
    fn lt_spec(self, _rhs: Self) -> bool {
        unreachable!()
    }
    fn ge_spec(self, _rhs: Self) -> bool {
        unreachable!()
    }
    fn abs_spec(self) -> Self {
        unreachable!()
    }
    fn sqrt_spec(self) -> Self {
        unreachable!()
    }
    fn sign_spec(self) -> Self {
        unreachable!()
    }
    fn sin_spec(self) -> Self {
        unreachable!()
    }
    fn cos_spec(self) -> Self {
        unreachable!()
    }
    fn ln_spec(self) -> Self {
        unreachable!()
    }
}

/// 32-bit float point element
#[derive(Debug, Clone, Copy, PartialEq, PartialOrd)]
struct F32(f32);

impl LikeNumber for F32 {
    fn zero() -> Self {
        F32(0.0)
    }
    fn one() -> Self {
        F32(1.0)
    }
    fn add(self, rhs: Self) -> Self {
        F32(self.0 + rhs.0)
    }
    fn sub(self, rhs: Self) -> Self {
        F32(self.0 - rhs.0)
    }
    fn mul(self, rhs: Self) -> Self {
        F32(self.0 * rhs.0)
    }
    fn div(self, rhs: Self) -> Self {
        F32(self.0 / rhs.0)
    }
    fn neg(self) -> Self {
        F32(-self.0)
    }
    fn is_eq(&self, rhs: &Self) -> bool {
        self.0 == rhs.0
    }
    fn is_gt(&self, rhs: &Self) -> bool {
        self.0 > rhs.0
    }
    fn is_lt(&self, rhs: &Self) -> bool {
        self.0 < rhs.0
    }
    fn is_ge(&self, rhs: &Self) -> bool {
        self.0 >= rhs.0
    }
    fn abs(&self) -> Self {
        if self.0 > 0.0 {
            *self
        } else {
            F32(-self.0)
        }
    }
    fn sqrt(&self) -> Self {
        F32(self.0.sqrt())
    }
    fn sign(&self) -> Self {
        if self.0 >= 0.0 {
            F32(1.0)
        } else {
            F32(-1.0)
        }
    }
    fn sin(&self) -> Self {
        F32(self.0.sin())
    }
    fn cos(&self) -> Self {
        F32(self.0.cos())
    }
    fn ln(&self) -> Self {
        F32(self.0.ln())
    }

    // The specification twins are never run.
    fn zero_spec() -> Self {
        unreachable!()
    }
    fn one_spec() -> Self {
        unreachable!()
    }
    fn add_spec(self, _rhs: Self) -> Self {
        unreachable!()
    }
    fn sub_spec(self, _rhs: Self) -> Self {
        unreachable!()
    }
    fn mul_spec(self, _rhs: Self) -> Self {
        unreachable!()
    }
    fn div_spec(self, _rhs: Self) -> Self {
        unreachable!()
    }
    fn neg_spec(self) -> Self {
        unreachable!()
    }
    fn eq_spec(self, _rhs: Self) -> bool {
        unreachable!()
    }
    fn gt_spec(self, _rhs: Self) -> bool {
        unreachable!()
    }
    fn lt_spec(self, _rhs: Self) -> bool {
        unreachable!()
    }
    fn ge_spec(self, _rhs: Self) -> bool {
        unreachable!()
    }
    fn abs_spec(self) -> Self {
        unreachable!()
    }
    fn sqrt_spec(self) -> Self {
        unreachable!()
    }
    fn sign_spec(self) -> Self {
        unreachable!()
    }
    fn sin_spec(self) -> Self {
        unreachable!()
    }
    fn cos_spec(self) -> Self {
        unreachable!()
    }
    fn ln_spec(self) -> Self {
        unreachable!()
    }
}

/// 64-bit float point real number matrix
#[derive(Debug, Clone, PartialEq)]
struct Mat64(DenseMatrix<F64>);

impl Matrix for Mat64 {
    type Elem = F64;

    // The view is a specification value and never computed.
    fn view(&self) -> MatrixView<F64> {
        unreachable!()
    }
    fn row(&self) -> usize {
        self.0.row()
    }
    fn column(&self) -> usize {
        self.0.column()
    }
    fn idx(&self, r: usize, c: usize) -> usize {
        self.0.idx(r, c)
    }
    fn data(&self) -> &[F64] {
        self.0.data()
    }
    fn elem(&self, r: usize, c: usize) -> F64 {
        self.0.elem(r, c)
    }
    fn set_elem(&mut self, r: usize, c: usize, value: F64) {
        self.0.set_elem(r, c, value)
    }
    fn data_column(&self, c: usize) -> &[F64] {
        self.0.data_column(c)
    }
    fn new(row: usize, column: usize, data: &[F64]) -> Self {
        Mat64(DenseMatrix::new(row, column, data))
    }
    fn from_vec(row: usize, column: usize, data: Vec<F64>) -> Self {
        Mat64(DenseMatrix::from_vec(row, column, data))
    }
    fn zero(row: usize, column: usize) -> Self {
        Mat64(DenseMatrix::zero(row, column))
    }
    fn identity(n: usize) -> Self {
        Mat64(DenseMatrix::identity(n))
    }
}

impl LUDecomposable for Mat64 {
    // The tolerance is named in contracts only.
    fn tolerance_spec() -> Option<F64> {
        unreachable!()
    }

    fn lu_decomp(mat: &Mat64) -> Result<LUDecomposition<Mat64>, JolinError> {
        lu_with_tolerance(mat, F64(1e-16))
    }
}

impl ElementStandardUniformProvider for Mat64 {
    fn gen(rng: &mut ThreadRng) -> F64 {
        F64(rng.gen())
    }
}

/// 32-bit float point real number matrix
type Mat32 = DenseMatrix<F32>;

fn f64s(values: &[f64]) -> Vec<F64> {
    values.iter().map(|x| F64(*x)).collect()
}

fn f32s(values: &[f32]) -> Vec<F32> {
    values.iter().map(|x| F32(*x)).collect()
}

/// A 64-bit matrix from data in column-major order.
fn new64(row: usize, column: usize, data: &[f64]) -> Mat64 {
    Mat64::new(row, column, &f64s(data))
}

/// A 32-bit matrix from data in column-major order.
fn new32(row: usize, column: usize, data: &[f32]) -> Mat32 {
    Mat32::new(row, column, &f32s(data))
}

/// A 64-bit real matrix where data is written row by row.
fn mat64(rows: &[&[f64]]) -> Mat64 {
    let mut items = Vec::new();
    let mut col = 0;
    let mut row = 0;
    for line in rows {
        let mut current_row = 0;
        for x in line.iter() {
            items.push(F64(*x));
            current_row += 1;
        }
        col += 1;
        if current_row == 0 {
            panic!("Zero element row is not allowed for matrix!");
        }
        if row == 0 {
            row = current_row;
        } else if row != current_row {
            panic!("Found different row lengths");
        }
    }
    tr(&Mat64::from_vec(row, col, items))
}

fn is_right_triangle(r: &Mat64, eps: f64) -> bool {
    for c in 0..r.column() {
        for i in (c + 1)..r.row() {
            if r.elem(i, c).0.abs() > eps {
                return false;
            }
        }
    }
    true
}

#[test]
fn test_lu_2x2() {
    let ans = lu(&mat64(&[&[1.0, 2.0], &[3.0, 4.0]])).unwrap();
    assert_eq!(ans.u, mat64(&[&[3.0, 4.0], &[0.0, 2.0 - 4.0 / 3.0]]));
    assert_eq!(ans.l, mat64(&[&[1.0, 0.0], &[1.0 / 3.0, 1.0]]));
}

#[test]
fn test_lu_singular() {
    let ans = lu(&mat64(&[&[1.0, 1.0], &[2.0, 2.0]]));
    assert!(ans.is_err())
}

#[test]
fn test_lu_3x3() {
    let mat = mat64(&[&[2.0, 3.0, 4.0], &[4.0, 7.0, 5.0], &[3.0, 9.0, 5.0]]);
    let ans = lu(&mat).unwrap();
    let rebuild = mul(&ans.l, &ans.u).unwrap();

    // Rows are rotated in rebuilt matrix
    assert_eq!(
        rebuild,
        mat64(&[&[4.0, 7.0, 5.0], &[3.0, 9.0, 5.0], &[2.0, 3.0, 4.0]])
    );
    assert_eq!(ans.p, vec![1, 2, 0]);
    assert_eq!(
        ans.l,
        mat64(&[&[1.0, 0.0, 0.0], &[0.75, 1.0, 0.0], &[0.5, -2.0 / 15.0, 1.0]])
    );
    assert_eq!(
        ans.u,
        mat64(&[&[4.0, 7.0, 5.0], &[0.0, 3.75, 1.25], &[0.0, 0.0, 5.0 / 3.0]])
    );
}

#[test]
fn test_lu_4x4() {
    let mat = mat64(&[
        &[2.0, 0.0, 4.0, 3.0],
        &[-4.0, 5.0, -7.0, 10.0],
        &[1.0, 15.0, 2.0, -4.5],
        &[-2.0, 0.0, 2.0, -13.0],
    ]);
    let ans = lu(&mat).unwrap();
    let rebuild = mul(&ans.l, &ans.u).unwrap();
    assert_eq!(ans.p, vec![1, 2, 3, 0]);
    for c in 0..4 {
        for r in 0..4 {
            assert!((mat.elem(ans.p[r], c).0 - rebuild.elem(r, c).0).abs() < 1e-7)
        }
    }
}

#[test]
fn test_lu_new_4x4() {
    let mat = mat64(&[
        &[2.0, 0.0, 4.0, 3.0],
        &[-4.0, 5.0, -7.0, 10.0],
        &[1.0, 15.0, 2.0, -4.5],
        &[-2.0, 0.0, 2.0, -13.0],
    ]);
    let ans = Mat64::lu_decomp(&mat).unwrap();
    let rebuild = mul(&ans.l, &ans.u).unwrap();
    assert_eq!(ans.p, vec![1, 2, 3, 0]);
    for c in 0..4 {
        for r in 0..4 {
            assert!((mat.elem(ans.p[r], c).0 - rebuild.elem(r, c).0).abs() < 1e-7)
        }
    }
}

#[test]
fn test_simple_qr_gs_2x2() {
    let x = mat64(&[&[1.0, 2.0], &[1.0, 1.0]]);
    let ans = qr_gram_schmidt(&x).unwrap();
    // verify q is orthogonal
    let qtq = mul(&tr(&ans.q), &ans.q).unwrap();
    assert!(eq_with_error(&qtq, &Mat64::identity(2), F64(1e-7)));
    assert!(is_right_triangle(&ans.r, 1e-7));
    // verify Q*R = X
    let qmr = mul(&ans.q, &ans.r).unwrap();
    assert!(eq_with_error(&qmr, &x, F64(1e-7)));
}

#[test]
fn test_simple_qr_gs_3x3() {
    let x = mat64(&[&[1.0, 2.0, 3.0], &[1.0, 1.0, 4.0], &[5.0, 6.0, 2.0]]);
    let ans = qr_gram_schmidt(&x).unwrap();
    // verify q is orthogonal
    let qtq = mul(&tr(&ans.q), &ans.q).unwrap();
    assert!(eq_with_error(&qtq, &Mat64::identity(3), F64(1e-7)));
    assert!(is_right_triangle(&ans.r, 1e-7));
    // verify Q*R = X
    let qmr = mul(&ans.q, &ans.r).unwrap();
    assert!(eq_with_error(&qmr, &x, F64(1e-7)));
}

#[test]
fn test_simple_qr_householder_2x2() {
    let x = mat64(&[&[1.0, 2.0], &[1.0, 1.0]]);
    let ans = qr_househoulder(&x).unwrap();
    // verify q is orthogonal
    let qtq = mul(&tr(&ans.q), &ans.q).unwrap();
    assert!(eq_with_error(&qtq, &Mat64::identity(2), F64(1e-7)));
    assert!(is_right_triangle(&ans.r, 1e-7));
    // verify Q*R = X
    let qmr = mul(&ans.q, &ans.r).unwrap();
    assert!(eq_with_error(&qmr, &x, F64(1e-7)));
}

#[test]
fn test_simple_qr_householder_3x3() {
    let x = mat64(&[&[1.0, 2.0, 3.0], &[1.0, 1.0, 4.0], &[5.0, 6.0, 2.0]]);
    let ans = qr_househoulder(&x).unwrap();
    // verify q is orthogonal
    let qtq = mul(&tr(&ans.q), &ans.q).unwrap();
    assert!(eq_with_error(&qtq, &Mat64::identity(3), F64(1e-7)));
    assert!(is_right_triangle(&ans.r, 1e-10));
    // verify Q*R = X
    let qmr = mul(&ans.q, &ans.r).unwrap();
    assert!(eq_with_error(&qmr, &x, F64(1e-7)));
}

#[test]
fn test_det_2x2() {
    let x = mat64(&[&[1.0, 2.0], &[3.0, 4.0]]);
    assert_eq!(det(&x).unwrap(), F64(-2.0));
}

#[test]
fn test_det_3x3() {
    assert_eq!(
        det(&mat64(&[&[1.0, 2.0, 3.0], &[2.0, 3.0, 1.0], &[2.0, 4.0, 2.0]])),
        Ok(F64(4.0))
    );
    assert_eq!(
        det(&mat64(&[&[1.0, 2.0, 3.0], &[2.0, 4.0, 2.0], &[2.0, 3.0, 1.0]])),
        Ok(F64(-4.0))
    );
    assert_eq!(
        det(&mat64(&[
            &[1.0, 0.0, 0.0, 1.0],
            &[1.0, 1.0, 1.0, 1.0],
            &[1.0, 2.0, 1.0, 0.0],
            &[0.0, 0.0, 0.0, 1.0]
        ])),
        Ok(F64(-1.0))
    );
}

#[test]
fn test_det_singular() {
    assert_eq!(det(&mat64(&[&[1.0, 2.0], &[2.0, 4.0]])).unwrap(), F64(0.0));
    assert_eq!(
        det(&mat64(&[&[1.0, 2.0, 3.0], &[2.0, 4.0, 6.0], &[-1.0, -2.0, -3.0]])).unwrap(),
        F64(0.0)
    );
    assert_eq!(
        det(&mat64(&[
            &[1.0, 0.0, 0.0, 1.0],
            &[1.0, 1.0, 1.0, 1.0],
            &[1.0, 2.0, 2.0, 0.0],
            &[0.0, 0.0, 0.0, 1.0]
        ])),
        Ok(F64(0.0))
    );
}

#[test]
fn test_mat64_det_3x3() {
    assert_eq!(
        det_decomposable(&mat64(&[&[1.0, 2.0, 3.0], &[2.0, 3.0, 1.0], &[2.0, 4.0, 2.0]])),
        Ok(F64(4.0))
    );
    assert_eq!(
        det_decomposable(&mat64(&[&[1.0, 2.0, 3.0], &[2.0, 4.0, 2.0], &[2.0, 3.0, 1.0]])),
        Ok(F64(-4.0))
    );
    assert_eq!(
        det_decomposable(&mat64(&[
            &[1.0, 0.0, 0.0, 1.0],
            &[1.0, 1.0, 1.0, 1.0],
            &[1.0, 2.0, 1.0, 0.0],
            &[0.0, 0.0, 0.0, 1.0]
        ])),
        Ok(F64(-1.0))
    );
}

#[test]
fn test_matrix_eq() {
    let data = [1.0, 2.0, 3.0, 4.0, 5.0, 6.0];
    let a = new64(2, 3, &data);
    let b = new64(3, 2, &data);
    // same data but different shape
    assert!(a != b);
    let c = new64(2, 3, &data);
    // same data and shape
    assert!(a == c);

    let d = new64(2, 3, &[2.0, 3.0, 4.0, 1.0, 2.0, 3.0]);
    //same shape but different data
    assert!(a != d);
}

#[test]
fn test_data_column() {
    let data = [1.0, 2.0, 3.0, 4.0, 5.0, 6.0];
    let a = new64(2, 3, &data);
    assert_eq!(a.data_column(0), &[F64(1.0), F64(2.0)]);
    assert_eq!(a.data_column(1), &[F64(3.0), F64(4.0)]);
    assert_eq!(a.data_column(2), &[F64(5.0), F64(6.0)]);
}

#[test]
fn test_identity() {
    let i3 = Mat64::identity(3);
    assert_eq!(i3.data_column(0), &[F64(1.0), F64(0.0), F64(0.0)]);
    assert_eq!(i3.data_column(1), &[F64(0.0), F64(1.0), F64(0.0)]);
    assert_eq!(i3.data_column(2), &[F64(0.0), F64(0.0), F64(1.0)]);
}

#[test]
fn test_hcat() {
    let a = new32(2, 2, &[1.0, 2.0, 3.0, 4.0]);
    let b = new32(2, 1, &[5.0, 6.0]);
    let cat = hcat(&[&a, &b]).unwrap();
    assert_eq!(cat, new32(2, 3, &[1.0, 2.0, 3.0, 4.0, 5.0, 6.0]));
    let d = hcat(&[&a, &b, &cat]).unwrap();
    assert_eq!(
        d,
        new32(2, 6, &[1.0, 2.0, 3.0, 4.0, 5.0, 6.0, 1.0, 2.0, 3.0, 4.0, 5.0, 6.0])
    );

    let c = new32(1, 2, &[5.0, 6.0]);
    let cat = hcat(&[&a, &c]);
    assert!(cat.is_err());
    assert!(cat.unwrap_err() == JolinError::shape_mismatching());
}

#[test]
fn test_vcat() {
    let a = new32(2, 2, &[1.0, 2.0, 3.0, 4.0]);
    let b = new32(1, 2, &[5.0, 6.0]);
    let c = new32(1, 2, &[7.0, 8.0]);
    let cat = vcat(&[&a, &b, &c]).unwrap();
    assert_eq!(cat, new32(4, 2, &[1.0, 2.0, 5.0, 7.0, 3.0, 4.0, 6.0, 8.0]));
}

#[test]
fn test_uniform_standard() {
    let x: Mat64 = uniform_standard(5, 5);
    for r in 0..5 {
        for c in 0..5 {
            assert!(x.elem(r, c).0 > 0.0);
            assert!(x.elem(r, c).0 < 1.0);
        }
    }
}

fn kind_of<T>(res: Result<T, JolinError>) -> Option<JolinErrorKind> {
    match res {
        Ok(_) => None,
        Err(e) => Some(e.kind()),
    }
}

#[test]
fn error_constructors_report_their_kind() {
    assert_eq!(JolinError::shape_mismatching().kind(), JolinErrorKind::ShapeMismatching);
    assert_eq!(JolinError::not_enough_input().kind(), JolinErrorKind::NotEnoughInput);
    assert_eq!(JolinError::singular_matrix().kind(), JolinErrorKind::SingularMatrix);
    assert!(JolinError::shape_mismatching() != JolinError::singular_matrix());
}

#[test]
fn literal_builder_is_row_major() {
    let a = mat64(&[&[1.0, 2.0, 3.0], &[4.0, 5.0, 6.0]]);
    assert_eq!(a.row(), 2);
    assert_eq!(a.column(), 3);
    assert_eq!(a.data_column(0), &[F64(1.0), F64(4.0)]);
    assert_eq!(a.data_column(1), &[F64(2.0), F64(5.0)]);
    assert_eq!(a.data_column(2), &[F64(3.0), F64(6.0)]);
}

#[test]
fn element_access_is_column_major() {
    let mut a = new64(2, 3, &[1.0, 2.0, 3.0, 4.0, 5.0, 6.0]);
    assert_eq!(a.idx(1, 2), 5);
    assert_eq!(a.idx(0, 1), 2);
    assert_eq!(a.elem(1, 0), F64(2.0));
    assert_eq!(a.elem(0, 2), F64(5.0));
    a.set_elem(0, 2, F64(9.0));
    assert_eq!(a.data(), &f64s(&[1.0, 2.0, 3.0, 4.0, 9.0, 6.0])[..]);
    let b = Mat64::from_vec(2, 3, f64s(&[1.0, 2.0, 3.0, 4.0, 9.0, 6.0]));
    assert_eq!(a, b);
    assert_eq!(a.clone(), b);
}

#[test]
fn zero_matrix_has_shape_and_zero_entries() {
    let z = Mat64::zero(2, 3);
    assert_eq!(z.row(), 2);
    assert_eq!(z.column(), 3);
    assert_eq!(z.data(), &f64s(&[0.0; 6])[..]);
    let empty = Mat64::zero(0, 4);
    assert_eq!(empty.row(), 0);
    assert_eq!(empty.column(), 4);
    assert_eq!(empty.data().len(), 0);
}

#[test]
fn add_sums_entry_by_entry() {
    let a = new64(2, 2, &[1.0, 2.0, 3.0, 4.0]);
    let b = new64(2, 2, &[0.5, 0.5, -0.5, -0.5]);
    let c = add(&a, &b).unwrap();
    assert_eq!(c, new64(2, 2, &[1.5, 2.5, 2.5, 3.5]));
}

#[test]
fn sub_subtracts_entry_by_entry() {
    let a = mat64(&[&[1.0, 2.0]]);
    let b = mat64(&[&[0.5, -0.5]]);
    let c = sub(&a, &b).unwrap();
    assert_eq!(c, new64(1, 2, &[0.5, 2.5]));
}

#[test]
fn neg_negates_every_entry() {
    let a = new64(1, 2, &[1.0, 2.0]);
    assert_eq!(neg(&a), new64(1, 2, &[-1.0, -2.0]));
}

#[test]
fn mul_is_row_times_column() {
    let a = mat64(&[&[1.0, 0.0], &[1.0, 1.0]]);
    let b = mat64(&[&[0.5], &[1.0]]);
    let c = mul(&a, &b).unwrap();
    assert_eq!(c, mat64(&[&[0.5], &[1.5]]));
    let d = mat64(&[&[1.0, 2.0, 3.0], &[4.0, 5.0, 6.0]]);
    let e = mat64(&[&[7.0, 8.0], &[9.0, 10.0], &[11.0, 12.0]]);
    assert_eq!(mul(&d, &e).unwrap(), mat64(&[&[58.0, 64.0], &[139.0, 154.0]]));
}

#[test]
fn tr_mirrors_the_entries() {
    let a = mat64(&[&[1.0, 2.0], &[3.0, 4.0], &[5.0, 6.0]]);
    assert_eq!(tr(&a), mat64(&[&[1.0, 3.0, 5.0], &[2.0, 4.0, 6.0]]));
}

#[test]
fn transposing_twice_gives_the_matrix_back() {
    let a = mat64(&[&[1.0, -2.0, 3.5], &[4.0, 5.0, -6.0]]);
    assert_eq!(tr(&tr(&a)), a);
    let row = mat64(&[&[7.0, 8.0, 9.0, 10.0]]);
    assert_eq!(tr(&tr(&row)), row);
}

#[test]
fn identity_times_a_matrix_is_that_matrix() {
    let a = mat64(&[&[1.0, -2.0], &[3.5, 4.0], &[5.0, -6.25]]);
    assert_eq!(mul(&Mat64::identity(3), &a).unwrap(), a);
    assert_eq!(mul(&a, &Mat64::identity(2)).unwrap(), a);
}

#[test]
fn elemwise_applies_the_function_to_every_entry() {
    let a = mat64(&[&[1.0, 2.0], &[-3.0, 4.0]]);
    let a2 = elemwise(&a, |x| F64(x.0 * x.0));
    assert_eq!(a2, mat64(&[&[1.0, 4.0], &[9.0, 16.0]]));
}

#[test]
fn eq_with_error_allows_the_given_error_and_no_more() {
    let a = new64(1, 2, &[1.0, 2.0]);
    let near = new64(1, 2, &[1.0 + 1e-9, 2.0 - 1e-9]);
    let far = new64(1, 2, &[1.0, 2.1]);
    assert!(eq_with_error(&a, &near, F64(1e-7)));
    assert!(!eq_with_error(&a, &far, F64(1e-7)));
    assert!(eq_with_error(&a, &far, F64(0.5)));
    // different shape
    assert!(!eq_with_error(&a, &new64(2, 1, &[1.0, 2.0]), F64(1e-7)));
}

#[test]
fn algebra_refuses_mismatching_shapes() {
    let a = new64(2, 3, &[1.0, 2.0, 3.0, 4.0, 5.0, 6.0]);
    let b = new64(3, 2, &[1.0, 2.0, 3.0, 4.0, 5.0, 6.0]);
    assert_eq!(kind_of(add(&a, &b)), Some(JolinErrorKind::ShapeMismatching));
    assert_eq!(kind_of(sub(&a, &b)), Some(JolinErrorKind::ShapeMismatching));
    assert_eq!(kind_of(mul(&a, &a)), Some(JolinErrorKind::ShapeMismatching));
    assert!(mul(&a, &b).is_ok());
}

#[test]
fn decompositions_refuse_mismatching_shapes() {
    let wide = new64(2, 3, &[1.0, 2.0, 3.0, 4.0, 5.0, 6.0]);
    let tall = new64(3, 2, &[1.0, 2.0, 3.0, 4.0, 5.0, 6.0]);
    assert_eq!(kind_of(lu(&wide)), Some(JolinErrorKind::ShapeMismatching));
    assert_eq!(kind_of(lu(&tall)), Some(JolinErrorKind::ShapeMismatching));
    assert_eq!(
        kind_of(lu_with_tolerance(&wide, F64(1e-16))),
        Some(JolinErrorKind::ShapeMismatching)
    );
    assert_eq!(kind_of(Mat64::lu_decomp(&tall)), Some(JolinErrorKind::ShapeMismatching));
    assert_eq!(kind_of(det(&wide)), Some(JolinErrorKind::ShapeMismatching));
    assert_eq!(
        kind_of(det_with_tolerance(&tall, F64(1e-16))),
        Some(JolinErrorKind::ShapeMismatching)
    );
    assert_eq!(kind_of(det_decomposable(&tall)), Some(JolinErrorKind::ShapeMismatching));
    assert_eq!(kind_of(qr_gram_schmidt(&wide)), Some(JolinErrorKind::ShapeMismatching));
    assert_eq!(kind_of(qr_househoulder(&wide)), Some(JolinErrorKind::ShapeMismatching));
    assert!(qr_gram_schmidt(&tall).is_ok());
    assert!(qr_househoulder(&tall).is_ok());
}

#[test]
fn concatenation_refuses_empty_and_mismatching_input() {
    let none: [&Mat32; 0] = [];
    assert_eq!(kind_of(hcat(&none)), Some(JolinErrorKind::NotEnoughInput));
    assert_eq!(kind_of(vcat(&none)), Some(JolinErrorKind::NotEnoughInput));
    let a = new32(2, 2, &[1.0, 2.0, 3.0, 4.0]);
    let b = new32(2, 1, &[5.0, 6.0]);
    let c = new32(1, 2, &[5.0, 6.0]);
    assert_eq!(kind_of(hcat(&[&a, &c])), Some(JolinErrorKind::ShapeMismatching));
    assert_eq!(kind_of(vcat(&[&a, &b])), Some(JolinErrorKind::ShapeMismatching));
    assert_eq!(hcat(&[&a]).unwrap(), a);
    assert_eq!(vcat(&[&a]).unwrap(), a);
}

#[test]
fn concatenation_places_the_blocks_in_order() {
    let a = mat64(&[&[1.0, 2.0], &[3.0, 4.0]]);
    let b = mat64(&[&[5.0], &[6.0]]);
    let c = hcat(&[&a, &b]).unwrap();
    assert_eq!(c, mat64(&[&[1.0, 2.0, 5.0], &[3.0, 4.0, 6.0]]));
    let d = mat64(&[&[1.0, 3.0], &[2.0, 4.0]]);
    let e = mat64(&[&[5.0, 6.0]]);
    let f = vcat(&[&d, &e]).unwrap();
    assert_eq!(f, new64(3, 2, &[1.0, 2.0, 5.0, 3.0, 4.0, 6.0]));
}

#[test]
fn lu_factors_are_triangular_with_unit_diagonal() {
    let mat = mat64(&[
        &[2.0, 0.0, 4.0, 3.0],
        &[-4.0, 5.0, -7.0, 10.0],
        &[1.0, 15.0, 2.0, -4.5],
        &[-2.0, 0.0, 2.0, -13.0],
    ]);
    let ans = lu(&mat).unwrap();
    for r in 0..4 {
        assert_eq!(ans.l.elem(r, r), F64(1.0));
        for c in (r + 1)..4 {
            assert_eq!(ans.l.elem(r, c), F64(0.0));
        }
        for c in 0..r {
            assert_eq!(ans.u.elem(r, c), F64(0.0));
        }
    }
    let mut seen = ans.p.clone();
    seen.sort();
    assert_eq!(seen, vec![0, 1, 2, 3]);
}

#[test]
fn lu_finds_equal_and_proportional_rows_singular() {
    let equal = mat64(&[&[1.0, 2.0, 3.0], &[4.0, 5.0, 6.0], &[1.0, 2.0, 3.0]]);
    assert_eq!(kind_of(lu(&equal)), Some(JolinErrorKind::SingularMatrix));
    assert_eq!(
        kind_of(lu_with_tolerance(&equal, F64(1e-16))),
        Some(JolinErrorKind::SingularMatrix)
    );
    let proportional = mat64(&[&[1.0, 1.0], &[2.0, 2.0]]);
    assert_eq!(kind_of(lu(&proportional)), Some(JolinErrorKind::SingularMatrix));
    assert_eq!(kind_of(Mat64::lu_decomp(&proportional)), Some(JolinErrorKind::SingularMatrix));
}

#[test]
fn tolerance_decides_what_counts_as_a_pivot() {
    let tiny = mat64(&[&[1e-17, 0.0], &[0.0, 1e-17]]);
    assert!(lu(&tiny).is_ok());
    assert_eq!(
        kind_of(lu_with_tolerance(&tiny, F64(1e-16))),
        Some(JolinErrorKind::SingularMatrix)
    );
    assert!(lu_with_tolerance(&tiny, F64(1e-18)).is_ok());
    assert_eq!(det_with_tolerance(&mat64(&[&[1e-17]]), F64(1e-16)), Ok(F64(0.0)));
    assert_eq!(det(&mat64(&[&[1e-17]])), Ok(F64(1e-17)));
}

#[test]
fn lu_of_an_empty_matrix_is_empty() {
    let ans = lu(&Mat64::zero(0, 0)).unwrap();
    assert_eq!(ans.l.row(), 0);
    assert_eq!(ans.u.column(), 0);
    assert_eq!(ans.p, Vec::<usize>::new());
}

#[test]
fn permutation_order_counts_the_exchanges() {
    assert_eq!(permutation_order(&vec![]), 0);
    assert_eq!(permutation_order(&vec![0, 1, 2]), 0);
    assert_eq!(permutation_order(&vec![1, 0]), 1);
    assert_eq!(permutation_order(&vec![1, 2, 0]), 2);
    assert_eq!(permutation_order(&vec![1, 2, 3, 0]), 3);
    assert_eq!(permutation_order(&vec![1, 0, 3, 2]), 2);
    assert_eq!(permutation_order(&vec![2, 1, 0, 3]), 1);
}

#[test]
fn determinant_changes_sign_with_the_parity_of_the_permutation() {
    let even = lu(&mat64(&[&[2.0, 3.0, 4.0], &[4.0, 7.0, 5.0], &[3.0, 9.0, 5.0]])).unwrap();
    assert_eq!(even.p, vec![1, 2, 0]);
    assert_eq!(det_from_lu(&even), F64(4.0 * 3.75 * (5.0 / 3.0)));
    let odd = lu(&mat64(&[&[1.0, 2.0], &[3.0, 4.0]])).unwrap();
    assert_eq!(odd.p, vec![1, 0]);
    assert_eq!(det_from_lu(&odd), F64(-(3.0 * (2.0 - 4.0 / 3.0))));
    assert_eq!(det(&mat64(&[&[5.0]])), Ok(F64(5.0)));
    assert_eq!(det_with_tolerance(&mat64(&[&[1.0, 2.0], &[3.0, 4.0]]), F64(1e-16)), Ok(F64(-2.0)));
}

#[test]
fn gram_schmidt_of_a_tall_matrix() {
    let x = mat64(&[&[1.0, 2.0], &[0.0, 1.0], &[1.0, 0.0]]);
    let ans = qr_gram_schmidt(&x).unwrap();
    assert_eq!((ans.q.row(), ans.q.column()), (3, 3));
    assert_eq!((ans.r.row(), ans.r.column()), (3, 2));
    // below the diagonal the factor is zero, not only small
    assert_eq!(ans.r.elem(1, 0), F64(0.0));
    assert_eq!(ans.r.elem(2, 0), F64(0.0));
    assert_eq!(ans.r.elem(2, 1), F64(0.0));
    // the first column of q is the first column of x, normalized
    assert_eq!(ans.q.elem(0, 0), F64(1.0 / 2.0f64.sqrt()));
    assert_eq!(ans.q.elem(1, 0), F64(0.0));
    let qmr = mul(&ans.q, &ans.r).unwrap();
    assert!(eq_with_error(&qmr, &x, F64(1e-7)));
}

#[test]
fn householder_of_a_tall_matrix() {
    let x = mat64(&[&[1.0, 2.0], &[0.0, 1.0], &[1.0, 0.0]]);
    let ans = qr_househoulder(&x).unwrap();
    assert_eq!((ans.q.row(), ans.q.column()), (3, 3));
    assert_eq!((ans.r.row(), ans.r.column()), (3, 2));
    let qtq = mul(&tr(&ans.q), &ans.q).unwrap();
    assert!(eq_with_error(&qtq, &Mat64::identity(3), F64(1e-7)));
    assert!(is_right_triangle(&ans.r, 1e-7));
    let qmr = mul(&ans.q, &ans.r).unwrap();
    assert!(eq_with_error(&qmr, &x, F64(1e-7)));
}

#[test]
fn householder_of_small_matrices() {
    let empty = qr_househoulder(&Mat64::zero(0, 0)).unwrap();
    assert_eq!((empty.q.row(), empty.r.row()), (0, 0));
    // a single row is never reflected
    let one = qr_househoulder(&mat64(&[&[3.0]])).unwrap();
    assert_eq!(one.q, Mat64::identity(1));
    assert_eq!(one.r, mat64(&[&[3.0]]));
}

#[test]
fn box_muller_transforms_entry_by_entry() {
    let two = F64(2.0);
    let two_pi = F64(2.0 * 3.1415926536);
    let u = new64(1, 2, &[0.5, 0.25]);
    let v = new64(1, 2, &[0.25, 0.75]);
    let n = box_muller(&u, &v, two, two_pi);
    let first = (-(0.5f64.ln()) * 2.0).sqrt() * (0.25f64 * (2.0 * 3.1415926536)).cos();
    let second = (-(0.25f64.ln()) * 2.0).sqrt() * (0.75f64 * (2.0 * 3.1415926536)).cos();
    assert_eq!(n, new64(1, 2, &[first, second]));
}

#[test]
fn random_matrices_have_the_shape_asked_for() {
    let x: Mat64 = uniform_standard(3, 4);
    assert_eq!((x.row(), x.column()), (3, 4));
    assert_eq!(x.data().len(), 12);
    let none: Mat64 = uniform_standard(0, 7);
    assert_eq!((none.row(), none.column()), (0, 7));
    let y: Mat64 = normal_standard(20, 20, F64(2.0), F64(2.0 * 3.1415926536));
    assert_eq!((y.row(), y.column()), (20, 20));
    assert!(y.data().iter().all(|e| e.0.is_finite()));
}

#[test]
fn elimination_keeps_what_rounding_leaves() {
    let ans = lu(&mat64(&[&[49.0, 1.0], &[1.0, 1.0]])).unwrap();
    assert_eq!(ans.p, vec![0, 1]);
    let ratio = 1.0f64 / 49.0;
    assert_eq!(ans.l.elem(1, 0), F64(ratio));
    assert_eq!(ans.u.elem(1, 0), F64(1.0 - ratio * 49.0));
    assert_eq!(ans.u.elem(1, 1), F64(1.0 - ratio * 1.0));
    // the quotient is rounded, so the entry below the diagonal is small, not zero
    assert!(ans.u.elem(1, 0) != F64(0.0));
    assert!(ans.u.elem(1, 0).0.abs() < 1e-15);
}
