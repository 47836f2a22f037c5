//! The capabilities of a factorization, and the Cholesky, LDLᴴ,
//! Bunch–Kaufman, LU and QR factorizations.
//!
//! Each factorization is assembled from what an in-place numeric kernel
//! leaves behind: the factored working matrix, and, for the pivoting
//! variants, the permutation arrays or block coefficients it produced.
//! Assembling splits the working matrix into its factors, clears the
//! triangles that do not belong to them, sets implicit unit diagonals and
//! wraps permutations. Solving, rebuilding and inverting then work on the
//! stored factors alone.
#![allow(non_snake_case)]

use vstd::prelude::*;

use crate::householder::{
    apply_householder_sequence, apply_q, apply_qh, lemma_apply_q_len, padded_column,
    q_times_upper,
};
use crate::mat::Mat;
use crate::perm::{is_perm, Perm, PermRef};
use crate::product::{lemma_sum_congruent, matmul, op_at, product_at, sum_of_products};
use crate::substitution::{
    block_divide_in_place, block_solved, is_block_subdiagonal, column, divide_rows_in_place, divided,
    lemma_column_is, lemma_triangular_len, overwrite_leading_rows, permute_rows_in_place, permuted,
    solve_triangular_in_place, triangular_solution, unit_column,
};
use crate::scalar::ComplexField;
use crate::triangular::{
    clear_upper, is_split_of, make_self_adjoint, min_nat, split_lu, unit_lower_entry,
    upper_entry,
};

verus! {

/// Whether an operand is used as it is or conjugated.
#[derive(Debug, Clone, Copy, PartialEq, Eq)]
pub enum Conj {
    No,
    Yes,
}

impl Conj {
    pub open spec fn is_yes(self) -> bool {
        self == Conj::Yes
    }

    /// `x`, conjugated when the flag says so.
    pub open spec fn apply<T: ComplexField>(self, x: T) -> T {
        if self.is_yes() {
            x.conj_spec()
        } else {
            x
        }
    }

    /// The opposite flag.
    pub open spec fn flipped(self) -> Conj {
        if self.is_yes() {
            Conj::No
        } else {
            Conj::Yes
        }
    }

    /// Conjugating by `self` and then by `other`.
    pub fn compose(self, other: Conj) -> (r: Conj)
        ensures
            r.is_yes() == (self.is_yes() != other.is_yes()),
            other.is_yes() ==> r == self.flipped(),
            !other.is_yes() ==> r == self,
    {
        match (self, other) {
            (Conj::No, Conj::No) => Conj::No,
            (Conj::Yes, Conj::Yes) => Conj::No,
            _ => Conj::Yes,
        }
    }
}

/// A Cholesky factorization failed: the pivot at `index` is not positive.
#[derive(Debug, Clone, Copy, PartialEq, Eq)]
pub enum LltError {
    NonPositivePivot { index: usize },
}

/// An LDLᴴ factorization failed: the pivot at `index` is zero.
#[derive(Debug, Clone, Copy, PartialEq, Eq)]
pub enum LdltError {
    ZeroPivot { index: usize },
}

/// A singular value decomposition did not converge.
#[derive(Debug, Clone, Copy, PartialEq, Eq)]
pub enum SvdError {
    NoConvergence,
}

/// An eigendecomposition did not converge.
#[derive(Debug, Clone, Copy, PartialEq, Eq)]
pub enum EvdError {
    NoConvergence,
}

/// The shape of the matrix that a factorization stands for.
pub trait ShapeCore {
    spec fn shape_rows(&self) -> nat;

    spec fn shape_cols(&self) -> nat;

    fn nrows(&self) -> (r: usize)
        ensures
            r == self.shape_rows(),
    ;

    fn ncols(&self) -> (r: usize)
        ensures
            r == self.shape_cols(),
    ;
}

/// Solving `A·X = B` and `Aᵀ·X = B` in place, where `A` is the factored matrix,
/// conjugated when the flag says so.
pub trait SolveCore<T: ComplexField>: ShapeCore {
    /// Entry `(i, j)` of the solution for the right-hand side `rhs`.
    spec fn solve_at(&self, conj: Conj, rhs: &Mat<T>, i: int, j: int) -> T;

    /// Entry `(i, j)` of the solution of the transposed system.
    spec fn solve_transpose_at(&self, conj: Conj, rhs: &Mat<T>, i: int, j: int) -> T;

    fn solve_in_place_with_conj(&self, conj: Conj, rhs: &mut Mat<T>)
        requires
            self.shape_rows() == self.shape_cols(),
            old(rhs).rows() == self.shape_rows(),
        ensures
            final(rhs).rows() == old(rhs).rows(),
            final(rhs).cols() == old(rhs).cols(),
            forall|i: int, j: int|
                0 <= i < old(rhs).rows() && 0 <= j < old(rhs).cols() ==> #[trigger] final(rhs).at(i, j)
                    == self.solve_at(conj, old(rhs), i, j),
    ;

    fn solve_transpose_in_place_with_conj(&self, conj: Conj, rhs: &mut Mat<T>)
        requires
            self.shape_rows() == self.shape_cols(),
            old(rhs).rows() == self.shape_cols(),
        ensures
            final(rhs).rows() == old(rhs).rows(),
            final(rhs).cols() == old(rhs).cols(),
            forall|i: int, j: int|
                0 <= i < old(rhs).rows() && 0 <= j < old(rhs).cols() ==> #[trigger] final(rhs).at(i, j)
                    == self.solve_transpose_at(conj, old(rhs), i, j),
    ;
}

/// Least-squares solving in place, for factorizations of matrices with at
/// least as many rows as columns: the leading `ncols` rows of the right-hand
/// side receive the solution.
pub trait SolveLstsqCore<T: ComplexField>: ShapeCore {
    spec fn lstsq_at(&self, conj: Conj, rhs: &Mat<T>, i: int, j: int) -> T;

    fn solve_lstsq_in_place_with_conj(&self, conj: Conj, rhs: &mut Mat<T>)
        requires
            old(rhs).rows() == self.shape_rows(),
            self.shape_rows() >= self.shape_cols(),
        ensures
            final(rhs).rows() == old(rhs).rows(),
            final(rhs).cols() == old(rhs).cols(),
            forall|i: int, j: int|
                0 <= i < self.shape_cols() && 0 <= j < old(rhs).cols() ==> #[trigger] final(rhs).at(i, j)
                    == self.lstsq_at(conj, old(rhs), i, j),
            forall|i: int, j: int|
                self.shape_cols() <= i < old(rhs).rows() && 0 <= j < old(rhs).cols() ==> #[trigger] final(rhs).at(i, j)
                    == old(rhs).at(i, j),
    ;
}

/// Rebuilding the factored matrix and its inverse as dense matrices.
pub trait DenseSolveCore<T: ComplexField>: SolveCore<T> {
    spec fn reconstruct_at(&self, i: int, j: int) -> T;

    spec fn inverse_at(&self, i: int, j: int) -> T;

    fn reconstruct(&self) -> (r: Mat<T>)
        requires
            self.shape_rows() * self.shape_cols() <= usize::MAX,
        ensures
            r.rows() == self.shape_rows(),
            r.cols() == self.shape_cols(),
            forall|i: int, j: int|
                0 <= i < r.rows() && 0 <= j < r.cols() ==> #[trigger] r.at(i, j) == self.reconstruct_at(i, j),
    ;

    fn inverse(&self) -> (r: Mat<T>)
        requires
            self.shape_rows() == self.shape_cols(),
        ensures
            r.rows() == self.shape_rows(),
            r.cols() == self.shape_cols(),
            forall|i: int, j: int|
                0 <= i < r.rows() && 0 <= j < r.cols() ==> #[trigger] r.at(i, j) == self.inverse_at(i, j),
    ;
}

/// A factorization that solves linear systems.
pub trait Solve<T: ComplexField>: SolveCore<T> {
}

/// A factorization that solves least-squares problems.
pub trait SolveLstsq<T: ComplexField>: SolveLstsqCore<T> {
}

/// A factorization that rebuilds its matrix and inverse.
pub trait DenseSolve<T: ComplexField>: DenseSolveCore<T> {
}

impl<T: ComplexField, S: SolveCore<T>> Solve<T> for S {
}

impl<T: ComplexField, S: SolveLstsqCore<T>> SolveLstsq<T> for S {
}

impl<T: ComplexField, S: DenseSolveCore<T>> DenseSolve<T> for S {
}

/// `l` is square with zeros above its diagonal.
pub open spec fn is_lower<T: ComplexField>(l: &Mat<T>) -> bool {
    &&& l.rows() == l.cols()
    &&& forall|i: int, j: int| 0 <= i < j < l.rows() ==> #[trigger] l.at(i, j) == T::zero_spec()
}

/// `l` has zeros above its diagonal and ones on it.
pub open spec fn is_unit_lower<T: ComplexField>(l: &Mat<T>) -> bool {
    &&& forall|i: int, j: int| 0 <= i < j < l.cols() && i < l.rows() ==> #[trigger] l.at(i, j) == T::zero_spec()
    &&& forall|i: int| 0 <= i < l.rows() && i < l.cols() ==> #[trigger] l.at(i, i) == T::one_spec()
}

/// `u` has zeros below its diagonal.
pub open spec fn is_upper<T: ComplexField>(u: &Mat<T>) -> bool {
    forall|i: int, j: int| 0 <= j < i < u.rows() && j < u.cols() ==> #[trigger] u.at(i, j) == T::zero_spec()
}

proof fn lemma_split_shapes<T: ComplexField>(lu: &Mat<T>, l: &Mat<T>, u: &Mat<T>)
    requires
        is_split_of(lu, l, u),
    ensures
        is_unit_lower(l),
        is_upper(u),
{
    assert forall|i: int, j: int| 0 <= i < j < l.cols() && i < l.rows() implies #[trigger] l.at(i, j) == T::zero_spec() by {
        assert(l.at(i, j) == unit_lower_entry(lu, i, j));
    }
    assert forall|i: int| 0 <= i < l.rows() && i < l.cols() implies #[trigger] l.at(i, i) == T::one_spec() by {
        assert(l.at(i, i) == unit_lower_entry(lu, i, i));
    }
    assert forall|i: int, j: int| 0 <= j < i < u.rows() && j < u.cols() implies #[trigger] u.at(i, j) == T::zero_spec() by {
        assert(u.at(i, j) == upper_entry(lu, i, j));
    }
}

/// The diagonal of a square matrix.
fn diagonal_of<T: ComplexField>(a: &Mat<T>) -> (r: Vec<T>)
    requires
        a.rows() == a.cols(),
    ensures
        r@.len() == a.rows(),
        forall|k: int| 0 <= k < a.rows() ==> #[trigger] r@[k] == a.at(k, k),
{
    let (n, _) = a.shape();
    let mut r: Vec<T> = Vec::with_capacity(n);
    let mut k: usize = 0;
    while k < n
        invariant
            k <= n,
            n == a.rows(),
            n == a.cols(),
            r@.len() == k,
            forall|t: int| 0 <= t < k ==> #[trigger] r@[t] == a.at(t, t),
        decreases n - k,
    {
        r.push(a.read(k, k));
        k = k + 1;
    }
    r
}

/// Entry `(i, j)` of the self-adjoint matrix whose lower triangle is given
/// by `f`: the diagonal keeps its real part, the upper triangle mirrors the
/// lower one conjugated.
pub open spec fn self_adjoint_from_lower<T: ComplexField>(f: spec_fn(int, int) -> T, i: int, j: int) -> T {
    if i > j {
        f(i, j)
    } else if i == j {
        f(i, i).real_spec()
    } else {
        f(j, i).conj_spec()
    }
}

/// A matrix built by `self_adjoint_from_lower` is exactly self-adjoint, and
/// its diagonal is real.
pub proof fn lemma_self_adjoint_from_lower<T: ComplexField>(f: spec_fn(int, int) -> T, i: int, j: int)
    ensures
        self_adjoint_from_lower(f, i, j) == self_adjoint_from_lower(f, j, i).conj_spec(),
        self_adjoint_from_lower(f, i, i) == self_adjoint_from_lower(f, i, i).real_spec(),
{
    if i > j {
        T::lemma_conj_conj(f(i, j));
    } else if i == j {
        T::lemma_real_self_adjoint(f(i, i));
    }
    T::lemma_real_real(f(i, i));
}

/// `a` made self-adjoint from its lower triangle is what
/// `self_adjoint_from_lower` describes.
proof fn lemma_made_self_adjoint<T: ComplexField>(a: &Mat<T>, r: &Mat<T>, f: spec_fn(int, int) -> T)
    requires
        a.rows() == a.cols(),
        r.rows() == a.rows(),
        r.cols() == a.cols(),
        forall|i: int, j: int| 0 <= i < a.rows() && 0 <= j < a.cols() ==> #[trigger] a.at(i, j) == f(i, j),
        forall|i: int, j: int| 0 <= j < i < a.rows() ==> #[trigger] r.at(i, j) == a.at(i, j),
        forall|i: int| 0 <= i < a.rows() ==> #[trigger] r.at(i, i) == a.at(i, i).real_spec(),
        forall|i: int, j: int| 0 <= i < j < a.rows() ==> #[trigger] r.at(i, j) == a.at(j, i).conj_spec(),
    ensures
        forall|i: int, j: int|
            0 <= i < a.rows() && 0 <= j < a.cols() ==> #[trigger] r.at(i, j) == self_adjoint_from_lower(f, i, j),
{
    assert forall|i: int, j: int| 0 <= i < a.rows() && 0 <= j < a.cols() implies #[trigger] r.at(i, j)
        == self_adjoint_from_lower(f, i, j) by {
        if i > j {
        } else if i == j {
            assert(r.at(i, i) == a.at(i, i).real_spec());
        } else {
            assert(r.at(i, j) == a.at(j, i).conj_spec());
        }
    }
}

/// `a` with column `j` multiplied by `d[j]`.
fn scale_columns_by<T: ComplexField>(a: &Mat<T>, d: &[T]) -> (r: Mat<T>)
    requires
        a.cols() <= d@.len(),
    ensures
        r.rows() == a.rows(),
        r.cols() == a.cols(),
        forall|i: int, j: int|
            0 <= i < a.rows() && 0 <= j < a.cols() ==> #[trigger] r.at(i, j) == a.at(i, j).mul_spec(d@[j]),
{
    let (m, n) = a.shape();
    let mut r = Mat::<T>::zeros(m, n);
    let mut j: usize = 0;
    while j < n
        invariant
            j <= n,
            m == a.rows(),
            n == a.cols(),
            n <= d@.len(),
            r.rows() == m,
            r.cols() == n,
            forall|p: int, q: int| 0 <= p < m && 0 <= q < j ==> #[trigger] r.at(p, q) == a.at(p, q).mul_spec(d@[q]),
        decreases n - j,
    {
        let mut i: usize = 0;
        while i < m
            invariant
                j < n,
                i <= m,
                m == a.rows(),
                n == a.cols(),
                n <= d@.len(),
                r.rows() == m,
                r.cols() == n,
                forall|p: int, q: int| 0 <= p < m && 0 <= q < j ==> #[trigger] r.at(p, q) == a.at(p, q).mul_spec(d@[q]),
                forall|p: int| 0 <= p < i ==> #[trigger] r.at(p, j as int) == a.at(p, j as int).mul_spec(d@[j as int]),
            decreases m - i,
        {
            let v = a.read(i, j).times(&d[j]);
            r.write(i, j, v);
            i = i + 1;
        }
        j = j + 1;
    }
    r
}

/// The matrix whose entry `(i, j)` is entry `(rows_from[i], cols_from[j])`
/// of `a`; without `rows_from` (or `cols_from`), row `i` (or column `j`)
/// stays in place.
pub fn gather<T: ComplexField>(a: &Mat<T>, rows_from: Option<&[usize]>, cols_from: Option<&[usize]>) -> (r: Mat<T>)
    requires
        rows_from matches Some(p) ==> p@.len() == a.rows() && forall|i: int| 0 <= i < a.rows() ==> #[trigger] p@[i] < a.rows(),
        cols_from matches Some(c) ==> c@.len() == a.cols() && forall|j: int| 0 <= j < a.cols() ==> #[trigger] c@[j] < a.cols(),
    ensures
        r.rows() == a.rows(),
        r.cols() == a.cols(),
        forall|i: int, j: int|
            0 <= i < a.rows() && 0 <= j < a.cols() ==> #[trigger] r.at(i, j) == a.at(
                match rows_from {
                    Some(p) => p@[i] as int,
                    None => i,
                },
                match cols_from {
                    Some(c) => c@[j] as int,
                    None => j,
                },
            ),
{
    let (m, n) = a.shape();
    let mut r = Mat::<T>::zeros(m, n);
    let mut j: usize = 0;
    while j < n
        invariant
            j <= n,
            m == a.rows(),
            n == a.cols(),
            rows_from matches Some(p) ==> p@.len() == m && forall|i: int| 0 <= i < m ==> #[trigger] p@[i] < m,
            cols_from matches Some(c) ==> c@.len() == n && forall|q: int| 0 <= q < n ==> #[trigger] c@[q] < n,
            r.rows() == m,
            r.cols() == n,
            forall|p: int, q: int|
                0 <= p < m && 0 <= q < j ==> #[trigger] r.at(p, q) == a.at(
                    match rows_from {
                        Some(rf) => rf@[p] as int,
                        None => p,
                    },
                    match cols_from {
                        Some(c) => c@[q] as int,
                        None => q,
                    },
                ),
        decreases n - j,
    {
        let src_col = match cols_from {
            Some(c) => c[j],
            None => j,
        };
        let mut i: usize = 0;
        while i < m
            invariant
                j < n,
                i <= m,
                m == a.rows(),
                n == a.cols(),
                rows_from matches Some(p) ==> p@.len() == m && forall|i: int| 0 <= i < m ==> #[trigger] p@[i] < m,
                src_col < n,
                src_col == match cols_from {
                    Some(c) => c@[j as int] as int,
                    None => j as int,
                },
                r.rows() == m,
                r.cols() == n,
                forall|p: int, q: int|
                    0 <= p < m && 0 <= q < j ==> #[trigger] r.at(p, q) == a.at(
                        match rows_from {
                            Some(rf) => rf@[p] as int,
                            None => p,
                        },
                        match cols_from {
                            Some(c) => c@[q] as int,
                            None => q,
                        },
                    ),
                forall|p: int| 0 <= p < i ==> #[trigger] r.at(p, j as int) == a.at(
                    match rows_from {
                        Some(rf) => rf@[p] as int,
                        None => p,
                    },
                    src_col as int,
                ),
            decreases m - i,
        {
            let src_row = match rows_from {
                Some(p) => p[i],
                None => i,
            };
            let v = a.read(src_row, src_col);
            r.write(i, j, v);
            i = i + 1;
        }
        j = j + 1;
    }
    r
}

/// Cholesky factorization `A = L·Lᴴ` of a self-adjoint positive-definite matrix.
#[derive(Debug)]
pub struct Cholesky<T: ComplexField> {
    l: Mat<T>,
}

impl<T: ComplexField> Cholesky<T> {
    #[verifier::type_invariant]
    spec fn inv(&self) -> bool {
        is_lower(&self.l)
    }

    /// The lower-triangular factor.
    pub closed spec fn factor_l(&self) -> Mat<T> {
        self.l
    }

    /// Assembles the factorization from the working matrix that an in-place
    /// Cholesky kernel factored: its lower triangle is kept, the rest cleared.
    pub fn from_factored(factored: Mat<T>) -> (r: Self)
        requires
            factored.rows() == factored.cols(),
        ensures
            r.factor_l().rows() == factored.rows(),
            r.factor_l().cols() == factored.rows(),
            forall|i: int, j: int|
                0 <= j <= i < factored.rows() ==> #[trigger] r.factor_l().at(i, j) == factored.at(i, j),
            is_lower(&r.factor_l()),
    {
        let mut l = factored;
        clear_upper(&mut l, false);
        Cholesky { l }
    }

    /// The lower-triangular factor.
    pub fn L(&self) -> (r: &Mat<T>)
        ensures
            *r == self.factor_l(),
            is_lower(r),
    {
        proof {
            use_type_invariant(self);
        }
        &self.l
    }

    /// The solution of `A·x = b` for `A = L·Lᴴ` conjugated by `conj`: forward
    /// substitution with `L`, then back substitution with `Lᴴ`.
    pub open spec fn solve_column(&self, conj: Conj, b: Seq<T>) -> Seq<T> {
        triangular_solution(
            &self.factor_l(),
            true,
            conj.flipped(),
            false,
            false,
            triangular_solution(&self.factor_l(), false, conj, false, true, b),
        )
    }
}

/// LDLᴴ factorization of a self-adjoint matrix, with `L` unit lower-triangular
/// and `D` diagonal.
#[derive(Debug)]
pub struct Ldlt<T: ComplexField> {
    l: Mat<T>,
    d: Vec<T>,
}

impl<T: ComplexField> Ldlt<T> {
    #[verifier::type_invariant]
    spec fn inv(&self) -> bool {
        &&& self.l.rows() == self.l.cols()
        &&& is_lower(&self.l)
        &&& is_unit_lower(&self.l)
        &&& self.d@.len() == self.l.rows()
    }

    pub closed spec fn factor_l(&self) -> Mat<T> {
        self.l
    }

    pub closed spec fn factor_d(&self) -> Seq<T> {
        self.d@
    }

    /// Assembles the factorization from the working matrix that an in-place
    /// LDLᴴ kernel factored: `D` is its diagonal, `L` its strict lower
    /// triangle with a unit diagonal.
    pub fn from_factored(factored: Mat<T>) -> (r: Self)
        requires
            factored.rows() == factored.cols(),
        ensures
            r.factor_l().rows() == factored.rows(),
            r.factor_l().cols() == factored.rows(),
            forall|i: int, j: int|
                0 <= i < factored.rows() && 0 <= j < factored.rows() ==> #[trigger] r.factor_l().at(i, j)
                    == unit_lower_entry(&factored, i, j),
            r.factor_d().len() == factored.rows(),
            forall|k: int| 0 <= k < factored.rows() ==> #[trigger] r.factor_d()[k] == factored.at(k, k),
    {
        let d = diagonal_of(&factored);
        let mut l = factored;
        clear_upper(&mut l, true);
        Ldlt { l, d }
    }

    /// The lower-triangular factor.
    pub fn L(&self) -> (r: &Mat<T>)
        ensures
            *r == self.factor_l(),
            is_lower(r),
            is_unit_lower(r),
    {
        proof {
            use_type_invariant(self);
        }
        &self.l
    }

    /// The diagonal of `D`.
    pub fn D(&self) -> (r: &[T])
        ensures
            r@ == self.factor_d(),
            r@.len() == self.factor_l().rows(),
    {
        proof {
            use_type_invariant(self);
        }
        self.d.as_slice()
    }

    /// Entry `(i, j)` of `L·D·Lᴴ` before it is made self-adjoint.
    pub open spec fn product_at(&self, i: int, j: int) -> T {
        sum_of_products(
            |t: int| self.factor_l().at(i, t).mul_spec(self.factor_d()[t]),
            |t: int| self.factor_l().at(j, t).conj_spec(),
            self.factor_l().cols() as int,
        )
    }

    /// The solution of `A·x = b` for `A = L·D·Lᴴ` conjugated by `conj`:
    /// forward substitution with `L`, division by `D`, then back substitution
    /// with `Lᴴ`.
    pub open spec fn solve_column(&self, conj: Conj, b: Seq<T>) -> Seq<T> {
        triangular_solution(
            &self.factor_l(),
            true,
            conj.flipped(),
            true,
            false,
            divided(triangular_solution(&self.factor_l(), false, conj, true, true, b), self.factor_d(), conj),
        )
    }
}

/// Bunch–Kaufman factorization `A = P·L·B·Lᴴ·Pᵀ` of a self-adjoint matrix,
/// with `B` block diagonal with blocks of size one and two.
#[derive(Debug)]
pub struct Lblt<T: ComplexField> {
    l: Mat<T>,
    b_diag: Vec<T>,
    b_subdiag: Vec<T>,
    p: Perm,
}

impl<T: ComplexField> Lblt<T> {
    #[verifier::type_invariant]
    spec fn inv(&self) -> bool {
        &&& self.l.rows() == self.l.cols()
        &&& is_lower(&self.l)
        &&& is_unit_lower(&self.l)
        &&& self.b_diag@.len() == self.l.rows()
        &&& self.b_subdiag@.len() == self.l.rows()
        &&& is_block_subdiagonal(self.b_subdiag@)
        &&& self.p.dim() == self.l.rows()
    }

    pub closed spec fn factor_l(&self) -> Mat<T> {
        self.l
    }

    pub closed spec fn factor_b_diag(&self) -> Seq<T> {
        self.b_diag@
    }

    pub closed spec fn factor_b_subdiag(&self) -> Seq<T> {
        self.b_subdiag@
    }

    pub closed spec fn factor_p(&self) -> (Seq<usize>, Seq<usize>) {
        (self.p.fwd(), self.p.bwd())
    }

    /// Assembles the factorization from what an in-place Bunch–Kaufman kernel
    /// produced: the factored working matrix, the sub-diagonal of the 2×2
    /// blocks (zero outside them, and no block starting on the last row), and
    /// the symmetric permutation.
    pub fn from_factored(factored: Mat<T>, subdiag: Vec<T>, perm_fwd: Vec<usize>, perm_bwd: Vec<usize>) -> (r: Self)
        requires
            factored.rows() == factored.cols(),
            subdiag@.len() == factored.rows(),
            is_block_subdiagonal(subdiag@),
            is_perm(perm_fwd@, perm_bwd@, factored.rows()),
        ensures
            r.factor_l().rows() == factored.rows(),
            r.factor_l().cols() == factored.rows(),
            forall|i: int, j: int|
                0 <= i < factored.rows() && 0 <= j < factored.rows() ==> #[trigger] r.factor_l().at(i, j)
                    == unit_lower_entry(&factored, i, j),
            r.factor_b_diag().len() == factored.rows(),
            forall|k: int| 0 <= k < factored.rows() ==> #[trigger] r.factor_b_diag()[k] == factored.at(k, k),
            r.factor_b_subdiag() == subdiag@,
            r.factor_p() == (perm_fwd@, perm_bwd@),
    {
        let n = factored.nrows();
        let d = diagonal_of(&factored);
        let mut l = factored;
        clear_upper(&mut l, true);
        let p = Perm::new_checked(perm_fwd, perm_bwd, n);
        Lblt { l, b_diag: d, b_subdiag: subdiag, p }
    }

    /// The lower-triangular factor.
    pub fn L(&self) -> (r: &Mat<T>)
        ensures
            *r == self.factor_l(),
            is_lower(r),
            is_unit_lower(r),
    {
        proof {
            use_type_invariant(self);
        }
        &self.l
    }

    /// The diagonal of the block diagonal factor `B`.
    pub fn B_diag(&self) -> (r: &[T])
        ensures
            r@ == self.factor_b_diag(),
            r@.len() == self.factor_l().rows(),
    {
        proof {
            use_type_invariant(self);
        }
        self.b_diag.as_slice()
    }

    /// The sub-diagonal of `B`: zero where a 1×1 block stands.
    pub fn B_subdiag(&self) -> (r: &[T])
        ensures
            r@ == self.factor_b_subdiag(),
            r@.len() == self.factor_l().rows(),
            is_block_subdiagonal(r@),
    {
        proof {
            use_type_invariant(self);
        }
        self.b_subdiag.as_slice()
    }

    /// The permutation `P`.
    pub fn P(&self) -> (r: PermRef<'_>)
        ensures
            (r.fwd(), r.bwd()) == self.factor_p(),
            r.dim() == self.factor_l().rows(),
    {
        proof {
            use_type_invariant(self);
        }
        self.p.as_ref()
    }

    /// Entry `(i, j)` of the block diagonal factor `B`: the diagonal, the
    /// sub-diagonal of the 2×2 blocks below it, and its conjugate above.
    pub open spec fn block_at(&self, i: int, j: int) -> T {
        if i == j {
            self.factor_b_diag()[i]
        } else if i == j + 1 {
            self.factor_b_subdiag()[j]
        } else if j == i + 1 {
            self.factor_b_subdiag()[i].conj_spec()
        } else {
            T::zero_spec()
        }
    }

    /// Entry `(i, j)` of `L·B·Lᴴ`.
    pub open spec fn inner_at(&self, i: int, j: int) -> T {
        sum_of_products(
            |t: int| sum_of_products(|s: int| self.factor_l().at(i, s), |s: int| self.block_at(s, t), self.factor_l().cols() as int),
            |t: int| self.factor_l().at(j, t).conj_spec(),
            self.factor_l().cols() as int,
        )
    }

    /// The solution of `A·x = b` for `A = P·L·B·Lᴴ·Pᵀ` conjugated by `conj`.
    pub open spec fn solve_column(&self, conj: Conj, b: Seq<T>) -> Seq<T> {
        permuted(
            triangular_solution(
                &self.factor_l(),
                true,
                conj.flipped(),
                true,
                false,
                block_solved(
                    triangular_solution(&self.factor_l(), false, conj, true, true, permuted(b, self.factor_p().0)),
                    self.factor_b_diag(),
                    self.factor_b_subdiag(),
                    conj,
                ),
            ),
            self.factor_p().1,
        )
    }

    /// The dense block diagonal factor `B`.
    fn block_matrix(&self) -> (r: Mat<T>)
        ensures
            r.rows() == self.factor_l().rows(),
            r.cols() == self.factor_l().rows(),
            forall|i: int, j: int| 0 <= i < r.rows() && 0 <= j < r.cols() ==> #[trigger] r.at(i, j) == self.block_at(i, j),
    {
        proof {
            use_type_invariant(self);
        }
        let (n, _) = self.l.shape();
        let mut r = Mat::<T>::zeros(n, n);
        let mut k: usize = 0;
        while k < n
            invariant
                k <= n,
                n == self.factor_l().rows(),
                self.b_diag@.len() == n,
                self.b_subdiag@.len() == n,
                r.rows() == n,
                r.cols() == n,
                forall|i: int, j: int| 0 <= i < n && 0 <= j < n ==> #[trigger] r.at(i, j) == if i < k && j < k {
                    self.block_at(i, j)
                } else {
                    T::zero_spec()
                },
            decreases n - k,
        {
            r.write(k, k, self.b_diag[k]);
            if k > 0 {
                r.write(k, k - 1, self.b_subdiag[k - 1]);
                r.write(k - 1, k, self.b_subdiag[k - 1].conj());
            }
            k = k + 1;
        }
        r
    }

}

/// The two factors of an LU or QR factorization, as the split rule lays
/// them out.
pub open spec fn is_trapezoidal_pair<T: ComplexField>(l: &Mat<T>, u: &Mat<T>) -> bool {
    &&& l.cols() == min_nat(l.rows(), u.cols())
    &&& u.rows() == l.cols()
    &&& is_unit_lower(l)
    &&& is_upper(u)
}

/// LU factorization with row pivoting: `P·L·U = A`.
#[derive(Debug)]
pub struct PartialPivLu<T: ComplexField> {
    l: Mat<T>,
    u: Mat<T>,
    p: Perm,
}

impl<T: ComplexField> PartialPivLu<T> {
    #[verifier::type_invariant]
    spec fn inv(&self) -> bool {
        &&& is_trapezoidal_pair(&self.l, &self.u)
        &&& self.p.dim() == self.l.rows()
    }

    pub closed spec fn factor_l(&self) -> Mat<T> {
        self.l
    }

    pub closed spec fn factor_u(&self) -> Mat<T> {
        self.u
    }

    pub closed spec fn factor_p(&self) -> (Seq<usize>, Seq<usize>) {
        (self.p.fwd(), self.p.bwd())
    }

    /// Assembles the factorization from the matrix that an in-place LU kernel
    /// with partial pivoting factored, and the row permutation it chose.
    pub fn from_factored(lu: Mat<T>, row_perm_fwd: Vec<usize>, row_perm_bwd: Vec<usize>) -> (r: Self)
        requires
            is_perm(row_perm_fwd@, row_perm_bwd@, lu.rows()),
        ensures
            is_split_of(&lu, &r.factor_l(), &r.factor_u()),
            r.factor_p() == (row_perm_fwd@, row_perm_bwd@),
    {
        let m = lu.nrows();
        let ghost lu0 = lu;
        let (l, u) = split_lu(lu);
        proof {
            lemma_split_shapes(&lu0, &l, &u);
        }
        let p = Perm::new_checked(row_perm_fwd, row_perm_bwd, m);
        PartialPivLu { l, u, p }
    }

    /// The lower-triangular factor.
    pub fn L(&self) -> (r: &Mat<T>)
        ensures
            *r == self.factor_l(),
            is_unit_lower(r),
    {
        proof {
            use_type_invariant(self);
        }
        &self.l
    }

    /// The upper-triangular factor.
    pub fn U(&self) -> (r: &Mat<T>)
        ensures
            *r == self.factor_u(),
            is_upper(r),
    {
        proof {
            use_type_invariant(self);
        }
        &self.u
    }

    /// The permutation `P`.
    pub fn P(&self) -> (r: PermRef<'_>)
        ensures
            (r.fwd(), r.bwd()) == self.factor_p(),
            r.dim() == self.factor_l().rows(),
    {
        proof {
            use_type_invariant(self);
        }
        self.p.as_ref()
    }

    /// The solution of `A·x = b` for `A = P·L·U` conjugated by `conj`: the
    /// rows of `b` in pivot order, forward substitution with `L`, then back
    /// substitution with `U`.
    pub open spec fn solve_column(&self, conj: Conj, b: Seq<T>) -> Seq<T> {
        triangular_solution(
            &self.factor_u(),
            false,
            conj,
            false,
            false,
            triangular_solution(&self.factor_l(), false, conj, true, true, permuted(b, self.factor_p().0)),
        )
    }

    /// The solution of `Aᵀ·x = b`: forward substitution with `Uᵀ`, back
    /// substitution with `Lᵀ`, then the rows back out of pivot order.
    pub open spec fn solve_transpose_column(&self, conj: Conj, b: Seq<T>) -> Seq<T> {
        permuted(
            triangular_solution(
                &self.factor_l(),
                true,
                conj,
                true,
                false,
                triangular_solution(&self.factor_u(), true, conj, false, true, b),
            ),
            self.factor_p().1,
        )
    }
}

/// LU factorization with row and column pivoting: `P·L·U·Qᵀ = A`.
#[derive(Debug)]
pub struct FullPivLu<T: ComplexField> {
    l: Mat<T>,
    u: Mat<T>,
    p: Perm,
    q: Perm,
}

impl<T: ComplexField> FullPivLu<T> {
    #[verifier::type_invariant]
    spec fn inv(&self) -> bool {
        &&& is_trapezoidal_pair(&self.l, &self.u)
        &&& self.p.dim() == self.l.rows()
        &&& self.q.dim() == self.u.cols()
    }

    pub closed spec fn factor_l(&self) -> Mat<T> {
        self.l
    }

    pub closed spec fn factor_u(&self) -> Mat<T> {
        self.u
    }

    pub closed spec fn factor_p(&self) -> (Seq<usize>, Seq<usize>) {
        (self.p.fwd(), self.p.bwd())
    }

    pub closed spec fn factor_q(&self) -> (Seq<usize>, Seq<usize>) {
        (self.q.fwd(), self.q.bwd())
    }

    /// Assembles the factorization from the matrix that an in-place LU kernel
    /// with full pivoting factored, and the row and column permutations it
    /// chose.
    pub fn from_factored(
        lu: Mat<T>,
        row_perm_fwd: Vec<usize>,
        row_perm_bwd: Vec<usize>,
        col_perm_fwd: Vec<usize>,
        col_perm_bwd: Vec<usize>,
    ) -> (r: Self)
        requires
            is_perm(row_perm_fwd@, row_perm_bwd@, lu.rows()),
            is_perm(col_perm_fwd@, col_perm_bwd@, lu.cols()),
        ensures
            is_split_of(&lu, &r.factor_l(), &r.factor_u()),
            r.factor_p() == (row_perm_fwd@, row_perm_bwd@),
            r.factor_q() == (col_perm_fwd@, col_perm_bwd@),
    {
        let (m, n) = lu.shape();
        let ghost lu0 = lu;
        let (l, u) = split_lu(lu);
        proof {
            lemma_split_shapes(&lu0, &l, &u);
        }
        let p = Perm::new_checked(row_perm_fwd, row_perm_bwd, m);
        let q = Perm::new_checked(col_perm_fwd, col_perm_bwd, n);
        FullPivLu { l, u, p, q }
    }

    /// The lower-triangular factor.
    pub fn L(&self) -> (r: &Mat<T>)
        ensures
            *r == self.factor_l(),
            is_unit_lower(r),
    {
        proof {
            use_type_invariant(self);
        }
        &self.l
    }

    /// The upper-triangular factor.
    pub fn U(&self) -> (r: &Mat<T>)
        ensures
            *r == self.factor_u(),
            is_upper(r),
    {
        proof {
            use_type_invariant(self);
        }
        &self.u
    }

    /// The permutation `P`.
    pub fn P(&self) -> (r: PermRef<'_>)
        ensures
            (r.fwd(), r.bwd()) == self.factor_p(),
            r.dim() == self.factor_l().rows(),
    {
        proof {
            use_type_invariant(self);
        }
        self.p.as_ref()
    }

    /// The column permutation `Q`.
    pub fn Q(&self) -> (r: PermRef<'_>)
        ensures
            (r.fwd(), r.bwd()) == self.factor_q(),
            r.dim() == self.factor_u().cols(),
    {
        proof {
            use_type_invariant(self);
        }
        self.q.as_ref()
    }

    /// The solution of `A·x = b` for `A = P·L·U·Qᵀ` conjugated by `conj`.
    pub open spec fn solve_column(&self, conj: Conj, b: Seq<T>) -> Seq<T> {
        permuted(
            triangular_solution(
                &self.factor_u(),
                false,
                conj,
                false,
                false,
                triangular_solution(&self.factor_l(), false, conj, true, true, permuted(b, self.factor_p().0)),
            ),
            self.factor_q().1,
        )
    }

    /// The solution of `Aᵀ·x = b`.
    pub open spec fn solve_transpose_column(&self, conj: Conj, b: Seq<T>) -> Seq<T> {
        permuted(
            triangular_solution(
                &self.factor_l(),
                true,
                conj,
                true,
                false,
                triangular_solution(&self.factor_u(), true, conj, false, true, permuted(b, self.factor_q().0)),
            ),
            self.factor_p().1,
        )
    }
}

/// QR factorization with `Q` kept implicit as a sequence of block Householder
/// reflectors: `Q_basis` holds their vectors below an implicit unit diagonal,
/// `Q_coeff` the triangular coefficients of each block.
#[derive(Debug)]
pub struct Qr<T: ComplexField> {
    q_basis: Mat<T>,
    q_coeff: Mat<T>,
    r: Mat<T>,
}

impl<T: ComplexField> Qr<T> {
    #[verifier::type_invariant]
    spec fn inv(&self) -> bool {
        &&& is_trapezoidal_pair(&self.q_basis, &self.r)
        &&& self.q_coeff.cols() == self.q_basis.cols()
        &&& self.q_coeff.rows() >= 1
    }

    pub closed spec fn factor_q_basis(&self) -> Mat<T> {
        self.q_basis
    }

    pub closed spec fn factor_q_coeff(&self) -> Mat<T> {
        self.q_coeff
    }

    pub closed spec fn factor_r(&self) -> Mat<T> {
        self.r
    }

    /// Assembles the factorization from the matrix that an in-place
    /// Householder QR kernel factored and the block coefficients it wrote.
    pub fn from_factored(qr: Mat<T>, q_coeff: Mat<T>) -> (r: Self)
        requires
            q_coeff.cols() == min_nat(qr.rows(), qr.cols()),
            q_coeff.rows() >= 1,
        ensures
            is_split_of(&qr, &r.factor_q_basis(), &r.factor_r()),
            r.factor_q_coeff() == q_coeff,
    {
        let ghost qr0 = qr;
        let (q_basis, r) = split_lu(qr);
        proof {
            lemma_split_shapes(&qr0, &q_basis, &r);
        }
        Qr { q_basis, q_coeff, r }
    }

    /// The Householder vectors of `Q`, below an implicit unit diagonal.
    pub fn Q_basis(&self) -> (r: &Mat<T>)
        ensures
            *r == self.factor_q_basis(),
            is_unit_lower(r),
    {
        proof {
            use_type_invariant(self);
        }
        &self.q_basis
    }

    /// The triangular block coefficients of `Q`.
    pub fn Q_coeff(&self) -> (r: &Mat<T>)
        ensures
            *r == self.factor_q_coeff(),
            r.cols() == self.factor_q_basis().cols(),
    {
        proof {
            use_type_invariant(self);
        }
        &self.q_coeff
    }

    /// The upper-triangular factor `R`.
    pub fn R(&self) -> (r: &Mat<T>)
        ensures
            *r == self.factor_r(),
            is_upper(r),
    {
        proof {
            use_type_invariant(self);
        }
        &self.r
    }

    /// The solution of `A·x = b` for `A = Q·R` conjugated by `conj`: `Qᴴ·b`,
    /// then back substitution with `R`.
    pub open spec fn solve_column(&self, conj: Conj, b: Seq<T>) -> Seq<T> {
        triangular_solution(&self.factor_r(), false, conj, false, false, apply_qh(&self.factor_q_basis(), &self.factor_q_coeff(), conj, 0, b))
    }

    /// The solution of `Aᵀ·x = b`: forward substitution with `Rᵀ`, then
    /// multiplication by `conj(Q)`, the inverse of `Qᵀ`.
    pub open spec fn solve_transpose_column(&self, conj: Conj, b: Seq<T>) -> Seq<T> {
        apply_q(&self.factor_q_basis(), &self.factor_q_coeff(), conj.flipped(), 0, triangular_solution(&self.factor_r(), true, conj, false, true, b))
    }

    /// The least-squares solution of `A·x ≈ b`: the leading rows of `Qᴴ·b`,
    /// then back substitution with `R`.
    pub open spec fn lstsq_column(&self, conj: Conj, b: Seq<T>) -> Seq<T> {
        triangular_solution(
            &self.factor_r(),
            false,
            conj,
            false,
            false,
            apply_qh(&self.factor_q_basis(), &self.factor_q_coeff(), conj, 0, b).subrange(0, self.factor_r().cols() as int),
        )
    }
}

/// QR factorization with column pivoting: `Q·R·Pᵀ = A`.
#[derive(Debug)]
pub struct ColPivQr<T: ComplexField> {
    q_basis: Mat<T>,
    q_coeff: Mat<T>,
    r: Mat<T>,
    p: Perm,
}

impl<T: ComplexField> ColPivQr<T> {
    #[verifier::type_invariant]
    spec fn inv(&self) -> bool {
        &&& is_trapezoidal_pair(&self.q_basis, &self.r)
        &&& self.q_coeff.cols() == self.q_basis.cols()
        &&& self.q_coeff.rows() >= 1
        &&& self.p.dim() == self.r.cols()
    }

    pub closed spec fn factor_q_basis(&self) -> Mat<T> {
        self.q_basis
    }

    pub closed spec fn factor_q_coeff(&self) -> Mat<T> {
        self.q_coeff
    }

    pub closed spec fn factor_r(&self) -> Mat<T> {
        self.r
    }

    pub closed spec fn factor_p(&self) -> (Seq<usize>, Seq<usize>) {
        (self.p.fwd(), self.p.bwd())
    }

    /// Assembles the factorization from the matrix that an in-place
    /// column-pivoting QR kernel factored, the block coefficients it wrote
    /// and the column permutation it chose.
    pub fn from_factored(qr: Mat<T>, q_coeff: Mat<T>, col_perm_fwd: Vec<usize>, col_perm_bwd: Vec<usize>) -> (r: Self)
        requires
            q_coeff.cols() == min_nat(qr.rows(), qr.cols()),
            q_coeff.rows() >= 1,
            is_perm(col_perm_fwd@, col_perm_bwd@, qr.cols()),
        ensures
            is_split_of(&qr, &r.factor_q_basis(), &r.factor_r()),
            r.factor_q_coeff() == q_coeff,
            r.factor_p() == (col_perm_fwd@, col_perm_bwd@),
    {
        let n = qr.ncols();
        let ghost qr0 = qr;
        let (q_basis, r) = split_lu(qr);
        proof {
            lemma_split_shapes(&qr0, &q_basis, &r);
        }
        let p = Perm::new_checked(col_perm_fwd, col_perm_bwd, n);
        ColPivQr { q_basis, q_coeff, r, p }
    }

    /// The Householder vectors of `Q`, below an implicit unit diagonal.
    pub fn Q_basis(&self) -> (r: &Mat<T>)
        ensures
            *r == self.factor_q_basis(),
            is_unit_lower(r),
    {
        proof {
            use_type_invariant(self);
        }
        &self.q_basis
    }

    /// The triangular block coefficients of `Q`.
    pub fn Q_coeff(&self) -> (r: &Mat<T>)
        ensures
            *r == self.factor_q_coeff(),
            r.cols() == self.factor_q_basis().cols(),
    {
        proof {
            use_type_invariant(self);
        }
        &self.q_coeff
    }

    /// The upper-triangular factor `R`.
    pub fn R(&self) -> (r: &Mat<T>)
        ensures
            *r == self.factor_r(),
            is_upper(r),
    {
        proof {
            use_type_invariant(self);
        }
        &self.r
    }

    /// The permutation `P`.
    pub fn P(&self) -> (r: PermRef<'_>)
        ensures
            (r.fwd(), r.bwd()) == self.factor_p(),
            r.dim() == self.factor_r().cols(),
    {
        proof {
            use_type_invariant(self);
        }
        self.p.as_ref()
    }

    /// The solution of `A·x = b` for `A = Q·R·Pᵀ` conjugated by `conj`.
    pub open spec fn solve_column(&self, conj: Conj, b: Seq<T>) -> Seq<T> {
        permuted(
            triangular_solution(&self.factor_r(), false, conj, false, false, apply_qh(&self.factor_q_basis(), &self.factor_q_coeff(), conj, 0, b)),
            self.factor_p().1,
        )
    }

    /// The solution of `Aᵀ·x = b`.
    pub open spec fn solve_transpose_column(&self, conj: Conj, b: Seq<T>) -> Seq<T> {
        apply_q(
            &self.factor_q_basis(),
            &self.factor_q_coeff(),
            conj.flipped(),
            0,
            triangular_solution(&self.factor_r(), true, conj, false, true, permuted(b, self.factor_p().0)),
        )
    }

    /// The least-squares solution of `A·x ≈ b`.
    pub open spec fn lstsq_column(&self, conj: Conj, b: Seq<T>) -> Seq<T> {
        permuted(
            triangular_solution(
                &self.factor_r(),
                false,
                conj,
                false,
                false,
                apply_qh(&self.factor_q_basis(), &self.factor_q_coeff(), conj, 0, b).subrange(0, self.factor_r().cols() as int),
            ),
            self.factor_p().1,
        )
    }
}

impl<T: ComplexField> ShapeCore for Cholesky<T> {
    open spec fn shape_rows(&self) -> nat {
        self.factor_l().rows()
    }

    open spec fn shape_cols(&self) -> nat {
        self.factor_l().cols()
    }

    fn nrows(&self) -> (r: usize) {
        self.l.nrows()
    }

    fn ncols(&self) -> (r: usize) {
        self.l.ncols()
    }
}

impl<T: ComplexField> ShapeCore for Ldlt<T> {
    open spec fn shape_rows(&self) -> nat {
        self.factor_l().rows()
    }

    open spec fn shape_cols(&self) -> nat {
        self.factor_l().cols()
    }

    fn nrows(&self) -> (r: usize) {
        self.l.nrows()
    }

    fn ncols(&self) -> (r: usize) {
        self.l.ncols()
    }
}

impl<T: ComplexField> ShapeCore for Lblt<T> {
    open spec fn shape_rows(&self) -> nat {
        self.factor_l().rows()
    }

    open spec fn shape_cols(&self) -> nat {
        self.factor_l().cols()
    }

    fn nrows(&self) -> (r: usize) {
        self.l.nrows()
    }

    fn ncols(&self) -> (r: usize) {
        self.l.ncols()
    }
}

impl<T: ComplexField> ShapeCore for PartialPivLu<T> {
    open spec fn shape_rows(&self) -> nat {
        self.factor_l().rows()
    }

    open spec fn shape_cols(&self) -> nat {
        self.factor_u().cols()
    }

    fn nrows(&self) -> (r: usize) {
        self.l.nrows()
    }

    fn ncols(&self) -> (r: usize) {
        self.u.ncols()
    }
}

impl<T: ComplexField> ShapeCore for FullPivLu<T> {
    open spec fn shape_rows(&self) -> nat {
        self.factor_l().rows()
    }

    open spec fn shape_cols(&self) -> nat {
        self.factor_u().cols()
    }

    fn nrows(&self) -> (r: usize) {
        self.l.nrows()
    }

    fn ncols(&self) -> (r: usize) {
        self.u.ncols()
    }
}

impl<T: ComplexField> ShapeCore for Qr<T> {
    open spec fn shape_rows(&self) -> nat {
        self.factor_q_basis().rows()
    }

    open spec fn shape_cols(&self) -> nat {
        self.factor_r().cols()
    }

    fn nrows(&self) -> (r: usize) {
        self.q_basis.nrows()
    }

    fn ncols(&self) -> (r: usize) {
        self.r.ncols()
    }
}

impl<T: ComplexField> ShapeCore for ColPivQr<T> {
    open spec fn shape_rows(&self) -> nat {
        self.factor_q_basis().rows()
    }

    open spec fn shape_cols(&self) -> nat {
        self.factor_r().cols()
    }

    fn nrows(&self) -> (r: usize) {
        self.q_basis.nrows()
    }

    fn ncols(&self) -> (r: usize) {
        self.r.ncols()
    }
}

impl<T: ComplexField> SolveCore<T> for Cholesky<T> {
    open spec fn solve_at(&self, conj: Conj, rhs: &Mat<T>, i: int, j: int) -> T {
        self.solve_column(conj, column(rhs, j))[i]
    }

    /// `Aᵀ = conj(A)` for a self-adjoint `A`.
    open spec fn solve_transpose_at(&self, conj: Conj, rhs: &Mat<T>, i: int, j: int) -> T {
        self.solve_column(conj.flipped(), column(rhs, j))[i]
    }

    fn solve_in_place_with_conj(&self, conj: Conj, rhs: &mut Mat<T>) {
        proof {
            use_type_invariant(self);
        }
        let ghost r0 = *rhs;
        solve_triangular_in_place(&self.l, false, conj, false, true, rhs);
        let ghost r1 = *rhs;
        solve_triangular_in_place(&self.l, true, conj.compose(Conj::Yes), false, false, rhs);
        proof {
            assert forall|j: int| 0 <= j < r0.cols() implies #[trigger] column(&r1, j)
                == triangular_solution(&self.l, false, conj, false, true, column(&r0, j)) by {
                lemma_triangular_len(&self.l, false, conj, false, true, column(&r0, j));
                lemma_column_is(&r1, j, triangular_solution(&self.l, false, conj, false, true, column(&r0, j)));
            }
        }
    }

    fn solve_transpose_in_place_with_conj(&self, conj: Conj, rhs: &mut Mat<T>) {
        self.solve_in_place_with_conj(conj.compose(Conj::Yes), rhs);
    }
}

impl<T: ComplexField> DenseSolveCore<T> for Cholesky<T> {
    /// `L·Lᴴ`, made exactly self-adjoint from its lower triangle.
    open spec fn reconstruct_at(&self, i: int, j: int) -> T {
        self_adjoint_from_lower(
            |p: int, q: int| product_at(&self.factor_l(), false, Conj::No, &self.factor_l(), true, Conj::Yes, self.factor_l().cols() as int, p, q),
            i,
            j,
        )
    }

    /// `A⁻¹·I` column by column, made exactly self-adjoint from its lower
    /// triangle.
    open spec fn inverse_at(&self, i: int, j: int) -> T {
        self_adjoint_from_lower(
            |p: int, q: int| self.solve_column(Conj::No, unit_column(self.factor_l().rows(), q))[p],
            i,
            j,
        )
    }

    fn reconstruct(&self) -> (r: Mat<T>) {
        proof {
            use_type_invariant(self);
        }
        let (n, _) = self.l.shape();
        let mut r = matmul(&self.l, false, Conj::No, &self.l, true, Conj::Yes, n, n, n);
        let ghost a = r;
        make_self_adjoint(&mut r);
        proof {
            lemma_made_self_adjoint(
                &a,
                &r,
                |p: int, q: int| product_at(&self.factor_l(), false, Conj::No, &self.factor_l(), true, Conj::Yes, self.factor_l().cols() as int, p, q),
            );
        }
        r
    }

    fn inverse(&self) -> (r: Mat<T>) {
        proof {
            use_type_invariant(self);
        }
        let (n, _) = self.l.shape();
        let mut r = Mat::<T>::identity(n);
        let ghost id = r;
        self.solve_in_place_with_conj(Conj::No, &mut r);
        let ghost a = r;
        make_self_adjoint(&mut r);
        proof {
            assert forall|q: int| 0 <= q < n implies #[trigger] column(&id, q) == unit_column::<T>(n as nat, q) by {
                lemma_column_is(&id, q, unit_column::<T>(n as nat, q));
            }
            lemma_made_self_adjoint(&a, &r, |p: int, q: int| self.solve_column(Conj::No, unit_column(self.factor_l().rows(), q))[p]);
        }
        r
    }
}

/// The reconstruction and the inverse that a Cholesky factorization gives are
/// exactly self-adjoint, with a real diagonal.
pub proof fn lemma_cholesky_dense_is_self_adjoint<T: ComplexField>(f: &Cholesky<T>, i: int, j: int)
    ensures
        f.reconstruct_at(i, j) == f.reconstruct_at(j, i).conj_spec(),
        f.inverse_at(i, j) == f.inverse_at(j, i).conj_spec(),
        f.reconstruct_at(i, i) == f.reconstruct_at(i, i).real_spec(),
        f.inverse_at(i, i) == f.inverse_at(i, i).real_spec(),
{
    lemma_self_adjoint_from_lower(
        |p: int, q: int| product_at(&f.factor_l(), false, Conj::No, &f.factor_l(), true, Conj::Yes, f.factor_l().cols() as int, p, q),
        i,
        j,
    );
    lemma_self_adjoint_from_lower(|p: int, q: int| f.solve_column(Conj::No, unit_column(f.factor_l().rows(), q))[p], i, j);
}

/// Each column of `after` is `f` of the same column of `before`.
proof fn lemma_columns_step<T: ComplexField>(
    before: &Mat<T>,
    after: &Mat<T>,
    a: &Mat<T>,
    ta: bool,
    ca: Conj,
    unit: bool,
    lower: bool,
)
    requires
        after.rows() == before.rows(),
        after.cols() == before.cols(),
        forall|i: int, j: int|
            0 <= i < before.rows() && 0 <= j < before.cols() ==> #[trigger] after.at(i, j)
                == triangular_solution(a, ta, ca, unit, lower, column(before, j))[i],
    ensures
        forall|j: int| 0 <= j < before.cols() ==> #[trigger] column(after, j)
            == triangular_solution(a, ta, ca, unit, lower, column(before, j)),
{
    assert forall|j: int| 0 <= j < before.cols() implies #[trigger] column(after, j)
        == triangular_solution(a, ta, ca, unit, lower, column(before, j)) by {
        lemma_triangular_len(a, ta, ca, unit, lower, column(before, j));
        lemma_column_is(after, j, triangular_solution(a, ta, ca, unit, lower, column(before, j)));
    }
}

/// Each column of `after` is the same column of `before` permuted by `idx`.
proof fn lemma_columns_permuted<T: ComplexField>(before: &Mat<T>, after: &Mat<T>, idx: Seq<usize>)
    requires
        idx.len() == before.rows(),
        after.rows() == before.rows(),
        after.cols() == before.cols(),
        forall|i: int, j: int|
            0 <= i < before.rows() && 0 <= j < before.cols() ==> #[trigger] after.at(i, j) == permuted(column(before, j), idx)[i],
    ensures
        forall|j: int| 0 <= j < before.cols() ==> #[trigger] column(after, j) == permuted(column(before, j), idx),
{
    assert forall|j: int| 0 <= j < before.cols() implies #[trigger] column(after, j) == permuted(column(before, j), idx) by {
        lemma_column_is(after, j, permuted(column(before, j), idx));
    }
}

/// The columns of the identity matrix `id` are the unit columns.
proof fn lemma_identity_columns<T: ComplexField>(id: &Mat<T>, n: nat)
    requires
        id.rows() == n,
        id.cols() == n,
        forall|i: int, j: int| 0 <= i < n && 0 <= j < n ==> #[trigger] id.at(i, j) == if i == j {
            T::one_spec()
        } else {
            T::zero_spec()
        },
    ensures
        forall|q: int| 0 <= q < n ==> #[trigger] column(id, q) == unit_column::<T>(n, q),
{
    assert forall|q: int| 0 <= q < n implies #[trigger] column(id, q) == unit_column::<T>(n, q) by {
        lemma_column_is(id, q, unit_column::<T>(n, q));
    }
}

impl<T: ComplexField> SolveCore<T> for Ldlt<T> {
    open spec fn solve_at(&self, conj: Conj, rhs: &Mat<T>, i: int, j: int) -> T {
        self.solve_column(conj, column(rhs, j))[i]
    }

    /// `Aᵀ = conj(A)` for a self-adjoint `A`.
    open spec fn solve_transpose_at(&self, conj: Conj, rhs: &Mat<T>, i: int, j: int) -> T {
        self.solve_column(conj.flipped(), column(rhs, j))[i]
    }

    fn solve_in_place_with_conj(&self, conj: Conj, rhs: &mut Mat<T>) {
        proof {
            use_type_invariant(self);
        }
        let ghost r0 = *rhs;
        solve_triangular_in_place(&self.l, false, conj, true, true, rhs);
        let ghost r1 = *rhs;
        divide_rows_in_place(rhs, self.d.as_slice(), conj);
        let ghost r2 = *rhs;
        solve_triangular_in_place(&self.l, true, conj.compose(Conj::Yes), true, false, rhs);
        proof {
            lemma_columns_step(&r0, &r1, &self.l, false, conj, true, true);
            assert forall|j: int| 0 <= j < r0.cols() implies #[trigger] column(&r2, j) == divided(column(&r1, j), self.d@, conj) by {
                lemma_column_is(&r2, j, divided(column(&r1, j), self.d@, conj));
            }
        }
    }

    fn solve_transpose_in_place_with_conj(&self, conj: Conj, rhs: &mut Mat<T>) {
        self.solve_in_place_with_conj(conj.compose(Conj::Yes), rhs);
    }
}

impl<T: ComplexField> DenseSolveCore<T> for Ldlt<T> {
    /// `L·D·Lᴴ`, made exactly self-adjoint from its lower triangle.
    open spec fn reconstruct_at(&self, i: int, j: int) -> T {
        self_adjoint_from_lower(|p: int, q: int| self.product_at(p, q), i, j)
    }

    /// `A⁻¹·I` column by column, made exactly self-adjoint from its lower
    /// triangle.
    open spec fn inverse_at(&self, i: int, j: int) -> T {
        self_adjoint_from_lower(
            |p: int, q: int| self.solve_column(Conj::No, unit_column(self.factor_l().rows(), q))[p],
            i,
            j,
        )
    }

    fn reconstruct(&self) -> (r: Mat<T>) {
        proof {
            use_type_invariant(self);
        }
        let (n, _) = self.l.shape();
        let scaled = scale_columns_by(&self.l, self.d.as_slice());
        let mut r = matmul(&scaled, false, Conj::No, &self.l, true, Conj::Yes, n, n, n);
        let ghost a = r;
        proof {
            assert forall|i: int, j: int| 0 <= i < n && 0 <= j < n implies #[trigger] a.at(i, j) == self.product_at(i, j) by {
                lemma_sum_congruent(
                    |t: int| op_at(&scaled, false, Conj::No, i, t),
                    |t: int| op_at(&self.l, true, Conj::Yes, t, j),
                    |t: int| self.factor_l().at(i, t).mul_spec(self.factor_d()[t]),
                    |t: int| self.factor_l().at(j, t).conj_spec(),
                    n as int,
                );
            }
        }
        make_self_adjoint(&mut r);
        proof {
            lemma_made_self_adjoint(&a, &r, |p: int, q: int| self.product_at(p, q));
        }
        r
    }

    fn inverse(&self) -> (r: Mat<T>) {
        proof {
            use_type_invariant(self);
        }
        let (n, _) = self.l.shape();
        let mut r = Mat::<T>::identity(n);
        proof {
            lemma_identity_columns(&r, n as nat);
        }
        self.solve_in_place_with_conj(Conj::No, &mut r);
        let ghost a = r;
        make_self_adjoint(&mut r);
        proof {
            lemma_made_self_adjoint(&a, &r, |p: int, q: int| self.solve_column(Conj::No, unit_column(self.factor_l().rows(), q))[p]);
        }
        r
    }
}

/// The reconstruction and the inverse that an LDLᴴ factorization gives are
/// exactly self-adjoint, with a real diagonal.
pub proof fn lemma_ldlt_dense_is_self_adjoint<T: ComplexField>(f: &Ldlt<T>, i: int, j: int)
    ensures
        f.reconstruct_at(i, j) == f.reconstruct_at(j, i).conj_spec(),
        f.inverse_at(i, j) == f.inverse_at(j, i).conj_spec(),
        f.reconstruct_at(i, i) == f.reconstruct_at(i, i).real_spec(),
        f.inverse_at(i, i) == f.inverse_at(i, i).real_spec(),
{
    lemma_self_adjoint_from_lower(|p: int, q: int| f.product_at(p, q), i, j);
    lemma_self_adjoint_from_lower(|p: int, q: int| f.solve_column(Conj::No, unit_column(f.factor_l().rows(), q))[p], i, j);
}

impl<T: ComplexField> SolveCore<T> for PartialPivLu<T> {
    open spec fn solve_at(&self, conj: Conj, rhs: &Mat<T>, i: int, j: int) -> T {
        self.solve_column(conj, column(rhs, j))[i]
    }

    open spec fn solve_transpose_at(&self, conj: Conj, rhs: &Mat<T>, i: int, j: int) -> T {
        self.solve_transpose_column(conj, column(rhs, j))[i]
    }

    fn solve_in_place_with_conj(&self, conj: Conj, rhs: &mut Mat<T>) {
        proof {
            use_type_invariant(self);
        }
        let p = self.p.as_ref();
        let ghost r0 = *rhs;
        permute_rows_in_place(rhs, p.forward());
        let ghost r1 = *rhs;
        solve_triangular_in_place(&self.l, false, conj, true, true, rhs);
        let ghost r2 = *rhs;
        solve_triangular_in_place(&self.u, false, conj, false, false, rhs);
        proof {
            lemma_columns_permuted(&r0, &r1, p.fwd());
            lemma_columns_step(&r1, &r2, &self.l, false, conj, true, true);
        }
    }

    fn solve_transpose_in_place_with_conj(&self, conj: Conj, rhs: &mut Mat<T>) {
        proof {
            use_type_invariant(self);
        }
        let p = self.p.as_ref();
        let ghost r0 = *rhs;
        solve_triangular_in_place(&self.u, true, conj, false, true, rhs);
        let ghost r1 = *rhs;
        solve_triangular_in_place(&self.l, true, conj, true, false, rhs);
        let ghost r2 = *rhs;
        permute_rows_in_place(rhs, p.backward());
        proof {
            lemma_columns_step(&r0, &r1, &self.u, true, conj, false, true);
            lemma_columns_step(&r1, &r2, &self.l, true, conj, true, false);
        }
    }
}

impl<T: ComplexField> DenseSolveCore<T> for PartialPivLu<T> {
    /// `P·L·U`: row `i` is row `bwd[i]` of `L·U`.
    open spec fn reconstruct_at(&self, i: int, j: int) -> T {
        product_at(&self.factor_l(), false, Conj::No, &self.factor_u(), false, Conj::No, self.factor_l().cols() as int, self.factor_p().1[i] as int, j)
    }

    /// `A⁻¹·I` column by column.
    open spec fn inverse_at(&self, i: int, j: int) -> T {
        self.solve_column(Conj::No, unit_column(self.factor_l().rows(), j))[i]
    }

    fn reconstruct(&self) -> (r: Mat<T>) {
        proof {
            use_type_invariant(self);
        }
        let (m, size) = self.l.shape();
        let n = self.u.ncols();
        let lu = matmul(&self.l, false, Conj::No, &self.u, false, Conj::No, m, n, size);
        let p = self.p.as_ref();
        gather(&lu, Some(p.backward()), None)
    }

    fn inverse(&self) -> (r: Mat<T>) {
        proof {
            use_type_invariant(self);
        }
        let n = self.u.ncols();
        let mut r = Mat::<T>::identity(n);
        proof {
            lemma_identity_columns(&r, n as nat);
        }
        self.solve_in_place_with_conj(Conj::No, &mut r);
        r
    }
}

impl<T: ComplexField> SolveCore<T> for FullPivLu<T> {
    open spec fn solve_at(&self, conj: Conj, rhs: &Mat<T>, i: int, j: int) -> T {
        self.solve_column(conj, column(rhs, j))[i]
    }

    open spec fn solve_transpose_at(&self, conj: Conj, rhs: &Mat<T>, i: int, j: int) -> T {
        self.solve_transpose_column(conj, column(rhs, j))[i]
    }

    fn solve_in_place_with_conj(&self, conj: Conj, rhs: &mut Mat<T>) {
        proof {
            use_type_invariant(self);
        }
        let p = self.p.as_ref();
        let q = self.q.as_ref();
        let ghost r0 = *rhs;
        permute_rows_in_place(rhs, p.forward());
        let ghost r1 = *rhs;
        solve_triangular_in_place(&self.l, false, conj, true, true, rhs);
        let ghost r2 = *rhs;
        solve_triangular_in_place(&self.u, false, conj, false, false, rhs);
        let ghost r3 = *rhs;
        permute_rows_in_place(rhs, q.backward());
        proof {
            lemma_columns_permuted(&r0, &r1, p.fwd());
            lemma_columns_step(&r1, &r2, &self.l, false, conj, true, true);
            lemma_columns_step(&r2, &r3, &self.u, false, conj, false, false);
        }
    }

    fn solve_transpose_in_place_with_conj(&self, conj: Conj, rhs: &mut Mat<T>) {
        proof {
            use_type_invariant(self);
        }
        let p = self.p.as_ref();
        let q = self.q.as_ref();
        let ghost r0 = *rhs;
        permute_rows_in_place(rhs, q.forward());
        let ghost r1 = *rhs;
        solve_triangular_in_place(&self.u, true, conj, false, true, rhs);
        let ghost r2 = *rhs;
        solve_triangular_in_place(&self.l, true, conj, true, false, rhs);
        let ghost r3 = *rhs;
        permute_rows_in_place(rhs, p.backward());
        proof {
            lemma_columns_permuted(&r0, &r1, q.fwd());
            lemma_columns_step(&r1, &r2, &self.u, true, conj, false, true);
            lemma_columns_step(&r2, &r3, &self.l, true, conj, true, false);
        }
    }
}

impl<T: ComplexField> DenseSolveCore<T> for FullPivLu<T> {
    /// `P·L·U·Qᵀ`: entry `(bwd_p[i], bwd_q[j])` of `L·U`.
    open spec fn reconstruct_at(&self, i: int, j: int) -> T {
        product_at(
            &self.factor_l(),
            false,
            Conj::No,
            &self.factor_u(),
            false,
            Conj::No,
            self.factor_l().cols() as int,
            self.factor_p().1[i] as int,
            self.factor_q().1[j] as int,
        )
    }

    /// `A⁻¹·I` column by column.
    open spec fn inverse_at(&self, i: int, j: int) -> T {
        self.solve_column(Conj::No, unit_column(self.factor_l().rows(), j))[i]
    }

    fn reconstruct(&self) -> (r: Mat<T>) {
        proof {
            use_type_invariant(self);
        }
        let (m, size) = self.l.shape();
        let n = self.u.ncols();
        let lu = matmul(&self.l, false, Conj::No, &self.u, false, Conj::No, m, n, size);
        let p = self.p.as_ref();
        let q = self.q.as_ref();
        gather(&lu, Some(p.backward()), Some(q.backward()))
    }

    fn inverse(&self) -> (r: Mat<T>) {
        proof {
            use_type_invariant(self);
        }
        let n = self.u.ncols();
        let mut r = Mat::<T>::identity(n);
        proof {
            lemma_identity_columns(&r, n as nat);
        }
        self.solve_in_place_with_conj(Conj::No, &mut r);
        r
    }
}

impl<T: ComplexField> SolveCore<T> for Lblt<T> {
    open spec fn solve_at(&self, conj: Conj, rhs: &Mat<T>, i: int, j: int) -> T {
        self.solve_column(conj, column(rhs, j))[i]
    }

    /// `Aᵀ = conj(A)` for a self-adjoint `A`.
    open spec fn solve_transpose_at(&self, conj: Conj, rhs: &Mat<T>, i: int, j: int) -> T {
        self.solve_column(conj.flipped(), column(rhs, j))[i]
    }

    fn solve_in_place_with_conj(&self, conj: Conj, rhs: &mut Mat<T>) {
        proof {
            use_type_invariant(self);
        }
        let p = self.p.as_ref();
        let ghost r0 = *rhs;
        permute_rows_in_place(rhs, p.forward());
        let ghost r1 = *rhs;
        solve_triangular_in_place(&self.l, false, conj, true, true, rhs);
        let ghost r2 = *rhs;
        block_divide_in_place(rhs, self.b_diag.as_slice(), self.b_subdiag.as_slice(), conj);
        let ghost r3 = *rhs;
        solve_triangular_in_place(&self.l, true, conj.compose(Conj::Yes), true, false, rhs);
        let ghost r4 = *rhs;
        permute_rows_in_place(rhs, p.backward());
        proof {
            lemma_columns_permuted(&r0, &r1, p.fwd());
            lemma_columns_step(&r1, &r2, &self.l, false, conj, true, true);
            assert forall|j: int| 0 <= j < r0.cols() implies #[trigger] column(&r3, j)
                == block_solved(column(&r2, j), self.b_diag@, self.b_subdiag@, conj) by {
                lemma_column_is(&r3, j, block_solved(column(&r2, j), self.b_diag@, self.b_subdiag@, conj));
            }
            lemma_columns_step(&r3, &r4, &self.l, true, conj.flipped(), true, false);
        }
    }

    fn solve_transpose_in_place_with_conj(&self, conj: Conj, rhs: &mut Mat<T>) {
        self.solve_in_place_with_conj(conj.compose(Conj::Yes), rhs);
    }
}

impl<T: ComplexField> DenseSolveCore<T> for Lblt<T> {
    /// `P·L·B·Lᴴ·Pᵀ`, made exactly self-adjoint from its lower triangle.
    open spec fn reconstruct_at(&self, i: int, j: int) -> T {
        self_adjoint_from_lower(|p: int, q: int| self.inner_at(self.factor_p().1[p] as int, self.factor_p().1[q] as int), i, j)
    }

    /// `A⁻¹·I` column by column, made exactly self-adjoint from its lower
    /// triangle.
    open spec fn inverse_at(&self, i: int, j: int) -> T {
        self_adjoint_from_lower(
            |p: int, q: int| self.solve_column(Conj::No, unit_column(self.factor_l().rows(), q))[p],
            i,
            j,
        )
    }

    fn reconstruct(&self) -> (r: Mat<T>) {
        proof {
            use_type_invariant(self);
        }
        let (n, _) = self.l.shape();
        let b = self.block_matrix();
        let lb = matmul(&self.l, false, Conj::No, &b, false, Conj::No, n, n, n);
        let lblh = matmul(&lb, false, Conj::No, &self.l, true, Conj::Yes, n, n, n);
        proof {
            assert forall|i: int, j: int| 0 <= i < n && 0 <= j < n implies #[trigger] lblh.at(i, j) == self.inner_at(i, j) by {
                assert forall|t: int| 0 <= t < n implies #[trigger] op_at(&lb, false, Conj::No, i, t)
                    == sum_of_products(|s: int| self.factor_l().at(i, s), |s: int| self.block_at(s, t), n as int) by {
                    lemma_sum_congruent(
                        |s: int| op_at(&self.l, false, Conj::No, i, s),
                        |s: int| op_at(&b, false, Conj::No, s, t),
                        |s: int| self.factor_l().at(i, s),
                        |s: int| self.block_at(s, t),
                        n as int,
                    );
                }
                lemma_sum_congruent(
                    |t: int| op_at(&lb, false, Conj::No, i, t),
                    |t: int| op_at(&self.l, true, Conj::Yes, t, j),
                    |t: int| sum_of_products(|s: int| self.factor_l().at(i, s), |s: int| self.block_at(s, t), self.factor_l().cols() as int),
                    |t: int| self.factor_l().at(j, t).conj_spec(),
                    n as int,
                );
            }
        }
        let p = self.p.as_ref();
        let mut r = gather(&lblh, Some(p.backward()), Some(p.backward()));
        let ghost a = r;
        make_self_adjoint(&mut r);
        proof {
            lemma_made_self_adjoint(&a, &r, |p: int, q: int| self.inner_at(self.factor_p().1[p] as int, self.factor_p().1[q] as int));
        }
        r
    }

    fn inverse(&self) -> (r: Mat<T>) {
        proof {
            use_type_invariant(self);
        }
        let (n, _) = self.l.shape();
        let mut r = Mat::<T>::identity(n);
        proof {
            lemma_identity_columns(&r, n as nat);
        }
        self.solve_in_place_with_conj(Conj::No, &mut r);
        let ghost a = r;
        make_self_adjoint(&mut r);
        proof {
            lemma_made_self_adjoint(&a, &r, |p: int, q: int| self.solve_column(Conj::No, unit_column(self.factor_l().rows(), q))[p]);
        }
        r
    }
}

/// The reconstruction and the inverse that a Bunch–Kaufman factorization
/// gives are exactly self-adjoint, with a real diagonal.
pub proof fn lemma_lblt_dense_is_self_adjoint<T: ComplexField>(f: &Lblt<T>, i: int, j: int)
    ensures
        f.reconstruct_at(i, j) == f.reconstruct_at(j, i).conj_spec(),
        f.inverse_at(i, j) == f.inverse_at(j, i).conj_spec(),
        f.reconstruct_at(i, i) == f.reconstruct_at(i, i).real_spec(),
        f.inverse_at(i, i) == f.inverse_at(i, i).real_spec(),
{
    lemma_self_adjoint_from_lower(|p: int, q: int| f.inner_at(f.factor_p().1[p] as int, f.factor_p().1[q] as int), i, j);
    lemma_self_adjoint_from_lower(|p: int, q: int| f.solve_column(Conj::No, unit_column(f.factor_l().rows(), q))[p], i, j);
}

/// Each column of `after` is `Q` (or `Qᴴ`) applied to the same column of
/// `before`.
proof fn lemma_columns_reflected<T: ComplexField>(
    before: &Mat<T>,
    after: &Mat<T>,
    basis: &Mat<T>,
    coeff: &Mat<T>,
    conj: Conj,
    adjoint: bool,
)
    requires
        after.rows() == before.rows(),
        after.cols() == before.cols(),
        forall|i: int, j: int|
            0 <= i < before.rows() && 0 <= j < before.cols() ==> #[trigger] after.at(i, j) == (if adjoint {
                apply_qh(basis, coeff, conj, 0, column(before, j))
            } else {
                apply_q(basis, coeff, conj, 0, column(before, j))
            })[i],
    ensures
        forall|j: int| 0 <= j < before.cols() ==> #[trigger] column(after, j) == if adjoint {
            apply_qh(basis, coeff, conj, 0, column(before, j))
        } else {
            apply_q(basis, coeff, conj, 0, column(before, j))
        },
{
    assert forall|j: int| 0 <= j < before.cols() implies #[trigger] column(after, j) == if adjoint {
        apply_qh(basis, coeff, conj, 0, column(before, j))
    } else {
        apply_q(basis, coeff, conj, 0, column(before, j))
    } by {
        lemma_apply_q_len(basis, coeff, conj, 0, column(before, j));
        if adjoint {
            lemma_column_is(after, j, apply_qh(basis, coeff, conj, 0, column(before, j)));
        } else {
            lemma_column_is(after, j, apply_q(basis, coeff, conj, 0, column(before, j)));
        }
    }
}

impl<T: ComplexField> SolveCore<T> for Qr<T> {
    open spec fn solve_at(&self, conj: Conj, rhs: &Mat<T>, i: int, j: int) -> T {
        self.solve_column(conj, column(rhs, j))[i]
    }

    open spec fn solve_transpose_at(&self, conj: Conj, rhs: &Mat<T>, i: int, j: int) -> T {
        self.solve_transpose_column(conj, column(rhs, j))[i]
    }

    fn solve_in_place_with_conj(&self, conj: Conj, rhs: &mut Mat<T>) {
        proof {
            use_type_invariant(self);
        }
        let ghost r0 = *rhs;
        apply_householder_sequence(&self.q_basis, &self.q_coeff, conj, true, rhs);
        let ghost r1 = *rhs;
        solve_triangular_in_place(&self.r, false, conj, false, false, rhs);
        proof {
            lemma_columns_reflected(&r0, &r1, &self.q_basis, &self.q_coeff, conj, true);
        }
    }

    fn solve_transpose_in_place_with_conj(&self, conj: Conj, rhs: &mut Mat<T>) {
        proof {
            use_type_invariant(self);
        }
        let ghost r0 = *rhs;
        solve_triangular_in_place(&self.r, true, conj, false, true, rhs);
        let ghost r1 = *rhs;
        apply_householder_sequence(&self.q_basis, &self.q_coeff, conj.compose(Conj::Yes), false, rhs);
        proof {
            lemma_columns_step(&r0, &r1, &self.r, true, conj, false, true);
        }
    }
}

impl<T: ComplexField> SolveLstsqCore<T> for Qr<T> {
    open spec fn lstsq_at(&self, conj: Conj, rhs: &Mat<T>, i: int, j: int) -> T {
        self.lstsq_column(conj, column(rhs, j))[i]
    }

    fn solve_lstsq_in_place_with_conj(&self, conj: Conj, rhs: &mut Mat<T>) {
        proof {
            use_type_invariant(self);
        }
        let n = self.r.ncols();
        let mut tmp = rhs.to_owned();
        let ghost r0 = tmp;
        apply_householder_sequence(&self.q_basis, &self.q_coeff, conj, true, &mut tmp);
        let ghost r1 = tmp;
        let mut x = tmp.leading_rows(n);
        let ghost x0 = x;
        solve_triangular_in_place(&self.r, false, conj, false, false, &mut x);
        proof {
            lemma_columns_reflected(&r0, &r1, &self.q_basis, &self.q_coeff, conj, true);
            assert forall|j: int| 0 <= j < r0.cols() implies #[trigger] column(&x0, j)
                == apply_qh(&self.q_basis, &self.q_coeff, conj, 0, column(rhs, j)).subrange(0, n as int) by {
                assert(column(&r0, j) =~= column(rhs, j));
                lemma_apply_q_len(&self.q_basis, &self.q_coeff, conj, 0, column(rhs, j));
                lemma_column_is(&x0, j, apply_qh(&self.q_basis, &self.q_coeff, conj, 0, column(rhs, j)).subrange(0, n as int));
            }
        }
        overwrite_leading_rows(rhs, &x);
    }
}

impl<T: ComplexField> DenseSolveCore<T> for Qr<T> {
    /// `Q·[R; 0]`.
    open spec fn reconstruct_at(&self, i: int, j: int) -> T {
        apply_q(&self.factor_q_basis(), &self.factor_q_coeff(), Conj::No, 0, padded_column(&self.factor_r(), self.factor_q_basis().rows(), j))[i]
    }

    /// `A⁻¹·I` column by column.
    open spec fn inverse_at(&self, i: int, j: int) -> T {
        self.solve_column(Conj::No, unit_column(self.factor_r().cols(), j))[i]
    }

    fn reconstruct(&self) -> (r: Mat<T>) {
        proof {
            use_type_invariant(self);
        }
        q_times_upper(&self.q_basis, &self.q_coeff, &self.r)
    }

    fn inverse(&self) -> (r: Mat<T>) {
        proof {
            use_type_invariant(self);
        }
        let n = self.r.ncols();
        let mut r = Mat::<T>::identity(n);
        proof {
            lemma_identity_columns(&r, n as nat);
        }
        self.solve_in_place_with_conj(Conj::No, &mut r);
        r
    }
}

impl<T: ComplexField> SolveCore<T> for ColPivQr<T> {
    open spec fn solve_at(&self, conj: Conj, rhs: &Mat<T>, i: int, j: int) -> T {
        self.solve_column(conj, column(rhs, j))[i]
    }

    open spec fn solve_transpose_at(&self, conj: Conj, rhs: &Mat<T>, i: int, j: int) -> T {
        self.solve_transpose_column(conj, column(rhs, j))[i]
    }

    fn solve_in_place_with_conj(&self, conj: Conj, rhs: &mut Mat<T>) {
        proof {
            use_type_invariant(self);
        }
        let p = self.p.as_ref();
        let ghost r0 = *rhs;
        apply_householder_sequence(&self.q_basis, &self.q_coeff, conj, true, rhs);
        let ghost r1 = *rhs;
        solve_triangular_in_place(&self.r, false, conj, false, false, rhs);
        let ghost r2 = *rhs;
        permute_rows_in_place(rhs, p.backward());
        proof {
            lemma_columns_reflected(&r0, &r1, &self.q_basis, &self.q_coeff, conj, true);
            lemma_columns_step(&r1, &r2, &self.r, false, conj, false, false);
        }
    }

    fn solve_transpose_in_place_with_conj(&self, conj: Conj, rhs: &mut Mat<T>) {
        proof {
            use_type_invariant(self);
        }
        let p = self.p.as_ref();
        let ghost r0 = *rhs;
        permute_rows_in_place(rhs, p.forward());
        let ghost r1 = *rhs;
        solve_triangular_in_place(&self.r, true, conj, false, true, rhs);
        let ghost r2 = *rhs;
        apply_householder_sequence(&self.q_basis, &self.q_coeff, conj.compose(Conj::Yes), false, rhs);
        proof {
            lemma_columns_permuted(&r0, &r1, p.fwd());
            lemma_columns_step(&r1, &r2, &self.r, true, conj, false, true);
        }
    }
}

impl<T: ComplexField> SolveLstsqCore<T> for ColPivQr<T> {
    open spec fn lstsq_at(&self, conj: Conj, rhs: &Mat<T>, i: int, j: int) -> T {
        self.lstsq_column(conj, column(rhs, j))[i]
    }

    fn solve_lstsq_in_place_with_conj(&self, conj: Conj, rhs: &mut Mat<T>) {
        proof {
            use_type_invariant(self);
        }
        let p = self.p.as_ref();
        let n = self.r.ncols();
        let mut tmp = rhs.to_owned();
        let ghost r0 = tmp;
        apply_householder_sequence(&self.q_basis, &self.q_coeff, conj, true, &mut tmp);
        let ghost r1 = tmp;
        let mut x = tmp.leading_rows(n);
        let ghost x0 = x;
        solve_triangular_in_place(&self.r, false, conj, false, false, &mut x);
        let ghost x1 = x;
        permute_rows_in_place(&mut x, p.backward());
        proof {
            lemma_columns_reflected(&r0, &r1, &self.q_basis, &self.q_coeff, conj, true);
            assert forall|j: int| 0 <= j < r0.cols() implies #[trigger] column(&x0, j)
                == apply_qh(&self.q_basis, &self.q_coeff, conj, 0, column(rhs, j)).subrange(0, n as int) by {
                assert(column(&r0, j) =~= column(rhs, j));
                lemma_apply_q_len(&self.q_basis, &self.q_coeff, conj, 0, column(rhs, j));
                lemma_column_is(&x0, j, apply_qh(&self.q_basis, &self.q_coeff, conj, 0, column(rhs, j)).subrange(0, n as int));
            }
            lemma_columns_step(&x0, &x1, &self.r, false, conj, false, false);
        }
        overwrite_leading_rows(rhs, &x);
    }
}

impl<T: ComplexField> DenseSolveCore<T> for ColPivQr<T> {
    /// `Q·R·Pᵀ`: column `j` is column `bwd[j]` of `Q·[R; 0]`.
    open spec fn reconstruct_at(&self, i: int, j: int) -> T {
        apply_q(
            &self.factor_q_basis(),
            &self.factor_q_coeff(),
            Conj::No,
            0,
            padded_column(&self.factor_r(), self.factor_q_basis().rows(), self.factor_p().1[j] as int),
        )[i]
    }

    /// `A⁻¹·I` column by column.
    open spec fn inverse_at(&self, i: int, j: int) -> T {
        self.solve_column(Conj::No, unit_column(self.factor_r().cols(), j))[i]
    }

    fn reconstruct(&self) -> (r: Mat<T>) {
        proof {
            use_type_invariant(self);
        }
        crate::col_pivoting::reconstruct(&self.q_basis, &self.q_coeff, &self.r, self.p.as_ref())
    }

    fn inverse(&self) -> (r: Mat<T>) {
        proof {
            use_type_invariant(self);
        }
        let n = self.r.ncols();
        let mut r = Mat::<T>::identity(n);
        proof {
            lemma_identity_columns(&r, n as nat);
        }
        self.solve_in_place_with_conj(Conj::No, &mut r);
        r
    }
}

} // verus!
