//! Random matrix generators.

use crate::matrix::{LikeNumber, Matrix, MatrixView};
use vstd::prelude::*;

verus! {

/// The thread-local generator of the `rand` crate. Nothing is known of its
/// state: it is only handed on to `gen`.
#[verifier::external_type_specification]
#[verifier::external_body]
pub struct ExThreadRng(::rand::rngs::ThreadRng);

/// `rand::thread_rng` hands out the generator of the current thread, seeded
/// by the system. Nothing is claimed of what it will produce.
pub assume_specification[ ::rand::thread_rng ]() -> (rng: ::rand::rngs::ThreadRng)
;

/// Provide the method to generate an element from the standard uniform
/// distribution.
pub trait ElementStandardUniformProvider: Matrix {
    /// Generate a random value
    fn gen(rng: &mut ::rand::rngs::ThreadRng) -> Self::Elem;
}

/// Standard uniform distribution random matrix generator
///
/// Every entry is drawn by `T::gen`; only the shape of the result is known
/// beforehand.
pub fn uniform_standard<T: Matrix + ElementStandardUniformProvider>(row: usize, column: usize) -> (m:
    T)
    requires
        row * column <= usize::MAX,
    ensures
        m@.wf(),
        m@.rows == row,
        m@.cols == column,
{
    let mut data: Vec<T::Elem> = Vec::new();
    let n = row * column;
    let mut rng = ::rand::thread_rng();
    for i in 0..n
        invariant
            data@.len() == i,
    {
        data.push(T::gen(&mut rng));
    }
    let m = T::from_vec(row, column, data);
    proof {
        assert(m@.wf());
    }
    m
}

/// One value of the Box-Muller transform: `sqrt(-ln(u) * two) * cos(v * two_pi)`.
pub open spec fn box_muller_spec<E: LikeNumber>(u: E, v: E, two: E, two_pi: E) -> E {
    u.ln_spec().neg_spec().mul_spec(two).sqrt_spec().mul_spec(v.mul_spec(two_pi).cos_spec())
}

/// The Box-Muller transform of two matrices of one shape, entry by entry.
pub open spec fn box_muller_view<E: LikeNumber>(
    u: MatrixView<E>,
    v: MatrixView<E>,
    two: E,
    two_pi: E,
) -> MatrixView<E> {
    MatrixView {
        rows: u.rows,
        cols: u.cols,
        data: Seq::new(u.data.len(), |k: int| box_muller_spec(u.data[k], v.data[k], two, two_pi)),
    }
}

/// Turn two matrices of uniform samples into one of standard normal samples
/// with the Box-Muller transform. `two` and `two_pi` are the constants 2 and
/// 2π in the element type.
pub fn box_muller<T: Matrix>(u: &T, v: &T, two: T::Elem, two_pi: T::Elem) -> (m: T)
    requires
        u@.same_shape(v@),
    ensures
        m@ == box_muller_view(u@, v@, two, two_pi),
{
    let u_data = u.data();
    let v_data = v.data();
    let n = u_data.len();
    let rows = v.row();
    let mut data: Vec<T::Elem> = Vec::new();
    for i in 0..n
        invariant
            n == u_data@.len(),
            n == v_data@.len(),
            data@.len() == i,
            forall|k: int|
                0 <= k < i ==> data@[k] == box_muller_spec(u_data@[k], v_data@[k], two, two_pi),
    {
        let a = u_data[i].ln().neg().mul(two).sqrt();
        let b = v_data[i].mul(two_pi).cos();
        data.push(a.mul(b));
    }
    proof {
        assert(data@ =~= box_muller_view(u@, v@, two, two_pi).data);
    }
    T::from_vec(u.row(), u.column(), data)
}

/// Standard normal (Gaussian) distribution random matrix generator
///
/// The generated values are sampled from a standard normal distribution where
/// mean is 0 and variance is 1. The values are generated with Box-Muller
/// transform from two uniform matrices; `two` and `two_pi` are the constants 2
/// and 2π in the element type.
pub fn normal_standard<T: Matrix + ElementStandardUniformProvider>(
    row: usize,
    column: usize,
    two: T::Elem,
    two_pi: T::Elem,
) -> (m: T)
    requires
        row * column <= usize::MAX,
    ensures
        m@.wf(),
        m@.rows == row,
        m@.cols == column,
        exists|u: MatrixView<T::Elem>, v: MatrixView<T::Elem>|
            {
                &&& u.wf() && u.rows == row && u.cols == column
                &&& v.wf() && v.same_shape(u)
                &&& m@ == #[trigger] box_muller_view(u, v, two, two_pi)
            },
{
    let u: T = uniform_standard(row, column);
    let v: T = uniform_standard(row, column);
    box_muller(&u, &v, two, two_pi)
}

} // verus!
