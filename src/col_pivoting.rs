//! Rebuilding a matrix from its column-pivoted QR factorization.
use vstd::prelude::*;

use crate::householder::{apply_q, householder_shapes, padded_column, q_times_upper};
use crate::mat::Mat;
use crate::perm::PermRef;
use crate::scalar::ComplexField;
use crate::solvers::{gather, Conj};

verus! {

/// `Q·R·Pᵀ`, with `Q` the implicit product of the Householder reflectors in
/// `q_basis` and `q_coeff`: column `j` is column `bwd[j]` of `Q·[R; 0]`.
pub fn reconstruct<T: ComplexField>(q_basis: &Mat<T>, q_coeff: &Mat<T>, r: &Mat<T>, col_perm: PermRef<'_>) -> (out: Mat<T>)
    requires
        householder_shapes(q_basis, q_coeff),
        r.rows() <= q_basis.rows(),
        col_perm.dim() == r.cols(),
        q_basis.rows() * r.cols() <= usize::MAX,
    ensures
        out.rows() == q_basis.rows(),
        out.cols() == r.cols(),
        forall|i: int, j: int|
            0 <= i < q_basis.rows() && 0 <= j < r.cols() ==> #[trigger] out.at(i, j)
                == apply_q(q_basis, q_coeff, Conj::No, 0, padded_column(r, q_basis.rows(), col_perm.bwd()[j] as int))[i],
{
    let qr = q_times_upper(q_basis, q_coeff, r);
    gather(&qr, None, Some(col_perm.backward()))
}

} // verus!
