//! Matrix decomposition algorithms.

/// LU decomposition algorithm
pub mod lu;

/// QR decomposition algorithms
pub mod qr;

/// What holds of every LU decomposition
pub mod lu_lemmas;

/// What holds of an LU decomposition over an exact field
pub mod lu_exact;
