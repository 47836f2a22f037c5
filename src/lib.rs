//! Dense matrix factorizations and the solvers built on them, verified.
//!
//! Every factorization is assembled from the in-place result of a numeric
//! factorization kernel and then offers, as far as it applies, solving
//! `A·X = B` and `Aᵀ·X = B`, least-squares solving, rebuilding `A`, and
//! inverting it. Scalars come from any field that implements
//! [`scalar::ComplexField`]; each operation is proved to return exactly what
//! its specification computes with that field's operations.
//!
//! - [`scalar`]: the scalar field, with exact integer and complex instances.
//! - [`mat`]: dense column-major matrices.
//! - [`perm`]: permutations as forward and inverse index arrays.
//! - [`product`]: matrix products.
//! - [`triangular`]: triangular copies, the split of an in-place
//!   factorization into its factors, and exact self-adjointness.
//! - [`substitution`]: forward and back substitution, row permutations and
//!   block-diagonal division.
//! - [`householder`]: implicit unitary factors made of block Householder
//!   reflectors.
//! - [`col_pivoting`]: rebuilding a matrix from a column-pivoted QR.
//! - [`solvers`]: the capabilities and the Cholesky, LDLᴴ, Bunch–Kaufman, LU
//!   and QR factorizations.
//! - [`spectral`]: singular value and eigenvalue decompositions.
pub mod col_pivoting;
pub mod householder;
pub mod mat;
pub mod perm;
pub mod product;
pub mod scalar;
pub mod solvers;
pub mod spectral;
pub mod substitution;
pub mod triangular;
