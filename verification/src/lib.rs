//! Dense vectors and matrices, with LU decomposition, determinant and
//! inverse, over any scalar type.
//!
//! The scalars are opaque: the library combines them only through the
//! operations of [`Scalar`], and draws them only through [`UniformSample`].
//! Each contract states which operations were applied to which operands and
//! in which order, which is all that can be said when the arithmetic may
//! round. The module [`exact`] states what the same results amount to when
//! it does not.
pub mod decomposition;
pub mod exact;
pub mod matrix;
pub mod row;
pub mod scalar;
pub mod vector;

pub use matrix::AlgebrustMatrix;
pub use scalar::{Scalar, UniformSample};
pub use vector::AlgebrustVector;
