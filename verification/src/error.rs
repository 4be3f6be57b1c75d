//! The error values that fallible matrix operations return.

use vstd::prelude::*;

verus! {

/// The reason an operation refused its input.
#[derive(Debug, PartialEq, Copy, Clone, Eq, Structural)]
pub enum JolinErrorKind {
    /// The shape of input matrices doesn't match or satisfy the requirements.
    ShapeMismatching,
    /// Not enough input is provided.
    NotEnoughInput,
    /// Singular matrix is encountered.
    SingularMatrix,
}

/// An error value; it carries nothing but its kind.
#[derive(Debug, Clone, Copy, PartialEq, Eq, Structural)]
pub struct JolinError {
    _kind: JolinErrorKind,
}

impl JolinError {
    /// The kind of this error, as a specification value.
    pub closed spec fn spec_kind(self) -> JolinErrorKind {
        self._kind
    }

    pub fn shape_mismatching() -> (e: JolinError)
        ensures
            e.spec_kind() == JolinErrorKind::ShapeMismatching,
    {
        JolinError { _kind: JolinErrorKind::ShapeMismatching }
    }

    pub fn not_enough_input() -> (e: JolinError)
        ensures
            e.spec_kind() == JolinErrorKind::NotEnoughInput,
    {
        JolinError { _kind: JolinErrorKind::NotEnoughInput }
    }

    pub fn singular_matrix() -> (e: JolinError)
        ensures
            e.spec_kind() == JolinErrorKind::SingularMatrix,
    {
        JolinError { _kind: JolinErrorKind::SingularMatrix }
    }

    pub fn kind(&self) -> (k: JolinErrorKind)
        ensures
            k == self.spec_kind(),
    {
        self._kind
    }
}

} // verus!
