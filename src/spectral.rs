//! Singular value and eigenvalue decompositions.
#![allow(non_snake_case)]

use vstd::prelude::*;

use crate::mat::Mat;
use crate::scalar::{Complex, ComplexField, RealField};
use crate::product::{lemma_sum_congruent, matmul, op_at, product_at, sum_of_products};
use crate::solvers::{
    lemma_self_adjoint_from_lower, self_adjoint_from_lower, Conj, DenseSolveCore, ShapeCore,
    SolveCore, SolveLstsqCore,
};
use crate::substitution::overwrite_leading_rows;
use crate::triangular::{conjugate_in_place, make_self_adjoint, min_nat, Side};

verus! {

/// The matrix `a` with the conjugation `conj` applied to every entry.
pub open spec fn is_conj_of<T: ComplexField>(a: &Mat<T>, conj: Conj, b: &Mat<T>) -> bool {
    &&& b.rows() == a.rows()
    &&& b.cols() == a.cols()
    &&& forall|i: int, j: int|
        0 <= i < a.rows() && 0 <= j < a.cols() ==> #[trigger] b.at(i, j) == conj.apply(a.at(i, j))
}

/// `a` conjugated when `conj` says so.
fn apply_conj<T: ComplexField>(a: Mat<T>, conj: Conj) -> (r: Mat<T>)
    ensures
        is_conj_of(&a, conj, &r),
{
    let mut r = a;
    match conj {
        Conj::Yes => conjugate_in_place(&mut r),
        Conj::No => {},
    }
    r
}

/// Each entry of `s` is `conj.apply` of the same entry of `t`.
pub open spec fn is_conj_seq_of<T: ComplexField>(t: Seq<T>, conj: Conj, s: Seq<T>) -> bool {
    &&& s.len() == t.len()
    &&& forall|k: int| 0 <= k < t.len() ==> #[trigger] s[k] == conj.apply(t[k])
}

/// Every entry of `s` is real: its own real part.
pub open spec fn is_real_seq<T: ComplexField>(s: Seq<T>) -> bool {
    forall|k: int| 0 <= k < s.len() ==> #[trigger] s[k].real_spec() == s[k]
}

/// `s` with every entry conjugated when `conj` says so.
fn apply_conj_values<T: ComplexField>(s: Vec<T>, conj: Conj) -> (r: Vec<T>)
    ensures
        is_conj_seq_of(s@, conj, r@),
{
    let n = s.len();
    let mut r: Vec<T> = Vec::with_capacity(n);
    let mut k: usize = 0;
    while k < n
        invariant
            k <= n,
            n == s@.len(),
            r@.len() == k,
            forall|t: int| 0 <= t < k ==> #[trigger] r@[t] == conj.apply(s@[t]),
        decreases n - k,
    {
        let v = match conj {
            Conj::Yes => s[k].conj(),
            Conj::No => s[k],
        };
        r.push(v);
        k = k + 1;
    }
    r
}

/// The weight that a singular value or eigenvalue `x` carries: its real
/// part, or the reciprocal of it when `invert`.
pub open spec fn weight<T: ComplexField>(x: T, invert: bool) -> T {
    if invert {
        x.real_spec().recip_spec()
    } else {
        x.real_spec()
    }
}

/// The first `count` columns of `a`, column `j` multiplied by `weight(s[j])`.
fn scale_columns<T: ComplexField>(a: &Mat<T>, s: &[T], count: usize, invert: bool) -> (r: Mat<T>)
    requires
        count <= a.cols(),
        count <= s@.len(),
    ensures
        r.rows() == a.rows(),
        r.cols() == count,
        forall|i: int, j: int|
            0 <= i < a.rows() && 0 <= j < count ==> #[trigger] r.at(i, j) == a.at(i, j).mul_spec(weight(s@[j], invert)),
{
    let (m, n) = a.shape();
    proof {
        assert(m * count <= m * n) by (nonlinear_arith)
            requires
                count <= n,
        ;
    }
    let mut r = Mat::<T>::zeros(m, count);
    let mut j: usize = 0;
    while j < count
        invariant
            j <= count,
            count <= a.cols(),
            count <= s@.len(),
            m == a.rows(),
            r.rows() == m,
            r.cols() == count,
            forall|p: int, q: int|
                0 <= p < m && 0 <= q < j ==> #[trigger] r.at(p, q) == a.at(p, q).mul_spec(weight(s@[q], invert)),
        decreases count - j,
    {
        let w = if invert {
            s[j].real_part().recip()
        } else {
            s[j].real_part()
        };
        let mut i: usize = 0;
        while i < m
            invariant
                j < count,
                i <= m,
                count <= a.cols(),
                count <= s@.len(),
                m == a.rows(),
                r.rows() == m,
                r.cols() == count,
                w == weight(s@[j as int], invert),
                forall|p: int, q: int|
                    0 <= p < m && 0 <= q < j ==> #[trigger] r.at(p, q) == a.at(p, q).mul_spec(weight(s@[q], invert)),
                forall|p: int| 0 <= p < i ==> #[trigger] r.at(p, j as int) == a.at(p, j as int).mul_spec(weight(s@[j as int], invert)),
            decreases m - i,
        {
            let v = a.read(i, j).times(&w);
            r.write(i, j, v);
            i = i + 1;
        }
        j = j + 1;
    }
    r
}

/// `a` with row `i` multiplied by the reciprocal weight of `s[i]`.
fn scale_rows<T: ComplexField>(a: &Mat<T>, s: &[T]) -> (r: Mat<T>)
    requires
        a.rows() <= s@.len(),
    ensures
        r.rows() == a.rows(),
        r.cols() == a.cols(),
        forall|i: int, j: int|
            0 <= i < a.rows() && 0 <= j < a.cols() ==> #[trigger] r.at(i, j) == a.at(i, j).mul_spec(weight(s@[i], true)),
{
    let (m, n) = a.shape();
    let mut r = Mat::<T>::zeros(m, n);
    let mut i: usize = 0;
    while i < m
        invariant
            i <= m,
            m == a.rows(),
            n == a.cols(),
            m <= s@.len(),
            r.rows() == m,
            r.cols() == n,
            forall|p: int, q: int|
                0 <= p < i && 0 <= q < n ==> #[trigger] r.at(p, q) == a.at(p, q).mul_spec(weight(s@[p], true)),
        decreases m - i,
    {
        let w = s[i].real_part().recip();
        let mut j: usize = 0;
        while j < n
            invariant
                i < m,
                j <= n,
                m == a.rows(),
                n == a.cols(),
                m <= s@.len(),
                r.rows() == m,
                r.cols() == n,
                w == weight(s@[i as int], true),
                forall|p: int, q: int|
                    0 <= p < i && 0 <= q < n ==> #[trigger] r.at(p, q) == a.at(p, q).mul_spec(weight(s@[p], true)),
                forall|q: int| 0 <= q < j ==> #[trigger] r.at(i as int, q) == a.at(i as int, q).mul_spec(weight(s@[i as int], true)),
            decreases n - j,
        {
            let v = a.read(i, j).times(&w);
            r.write(i, j, v);
            j = j + 1;
        }
        i = i + 1;
    }
    r
}

/// Entry `(i, j)` of `L·diag(1/s)·Rᵀ·B`, where `L` is `left` conjugated by
/// `cl`, `R` is `right` conjugated by `cr`, and the sum runs over the first
/// `inner` columns of `left` and `right`: solving through an orthogonal
/// decomposition.
pub open spec fn spectral_solve_at<T: ComplexField>(
    left: &Mat<T>,
    cl: Conj,
    right: &Mat<T>,
    cr: Conj,
    s: Seq<T>,
    rhs: &Mat<T>,
    inner: int,
    i: int,
    j: int,
) -> T {
    sum_of_products(
        |t: int| op_at(left, false, cl, i, t),
        |t: int| product_at(right, true, cr, rhs, false, Conj::No, rhs.rows() as int, t, j).mul_spec(weight(s[t], true)),
        inner,
    )
}

/// The solution `L·diag(1/s)·Rᵀ·B` of `spectral_solve_at`, for the first
/// `out_rows` rows of `left`.
fn spectral_solve<T: ComplexField>(
    left: &Mat<T>,
    cl: Conj,
    right: &Mat<T>,
    cr: Conj,
    s: &[T],
    rhs: &Mat<T>,
    out_rows: usize,
    inner: usize,
) -> (r: Mat<T>)
    requires
        inner <= left.cols(),
        inner <= right.cols(),
        inner <= s@.len(),
        inner <= rhs.rows(),
        out_rows <= left.rows(),
        out_rows <= rhs.rows(),
        right.rows() == rhs.rows(),
    ensures
        r.rows() == out_rows,
        r.cols() == rhs.cols(),
        forall|i: int, j: int|
            0 <= i < out_rows && 0 <= j < rhs.cols() ==> #[trigger] r.at(i, j)
                == spectral_solve_at(left, cl, right, cr, s@, rhs, inner as int, i, j),
{
    let (m, k) = rhs.shape();
    proof {
        assert(inner * k <= m * k) by (nonlinear_arith)
            requires
                inner <= m,
        ;
        assert(out_rows * k <= m * k) by (nonlinear_arith)
            requires
                out_rows <= m,
        ;
    }
    let tmp = matmul(right, true, cr, rhs, false, Conj::No, inner, k, m);
    let tmp = scale_rows(&tmp, s);
    let r = matmul(left, false, cl, &tmp, false, Conj::No, out_rows, k, inner);
    proof {
        assert forall|i: int, j: int| 0 <= i < out_rows && 0 <= j < k implies #[trigger] r.at(i, j)
            == spectral_solve_at(left, cl, right, cr, s@, rhs, inner as int, i, j) by {
            lemma_sum_congruent(
                |t: int| op_at(left, false, cl, i, t),
                |t: int| op_at(&tmp, false, Conj::No, t, j),
                |t: int| op_at(left, false, cl, i, t),
                |t: int| product_at(right, true, cr, rhs, false, Conj::No, rhs.rows() as int, t, j).mul_spec(weight(s@[t], true)),
                inner as int,
            );
        }
    }
    r
}

/// Entry `(i, j)` of `L·diag(w)·Rᴴ` over the first `size` columns of `left`
/// and `right`, with weights `w = weight(s[t], invert)`.
pub open spec fn spectral_product_at<T: ComplexField>(
    left: &Mat<T>,
    s: Seq<T>,
    invert: bool,
    right: &Mat<T>,
    size: int,
    i: int,
    j: int,
) -> T {
    sum_of_products(|t: int| left.at(i, t).mul_spec(weight(s[t], invert)), |t: int| right.at(j, t).conj_spec(), size)
}

/// The dense product `L·diag(w)·Rᴴ` of `spectral_product_at`.
fn spectral_product<T: ComplexField>(left: &Mat<T>, s: &[T], invert: bool, right: &Mat<T>, size: usize) -> (r: Mat<T>)
    requires
        size <= left.cols(),
        size <= right.cols(),
        size <= s@.len(),
        left.rows() * right.rows() <= usize::MAX,
    ensures
        r.rows() == left.rows(),
        r.cols() == right.rows(),
        forall|i: int, j: int|
            0 <= i < left.rows() && 0 <= j < right.rows() ==> #[trigger] r.at(i, j)
                == spectral_product_at(left, s@, invert, right, size as int, i, j),
{
    let m = left.nrows();
    let n = right.nrows();
    let scaled = scale_columns(left, s, size, invert);
    let r = matmul(&scaled, false, Conj::No, right, true, Conj::Yes, m, n, size);
    proof {
        assert forall|i: int, j: int| 0 <= i < m && 0 <= j < n implies #[trigger] r.at(i, j)
            == spectral_product_at(left, s@, invert, right, size as int, i, j) by {
            lemma_sum_congruent(
                |t: int| op_at(&scaled, false, Conj::No, i, t),
                |t: int| op_at(right, true, Conj::Yes, t, j),
                |t: int| left.at(i, t).mul_spec(weight(s@[t], invert)),
                |t: int| right.at(j, t).conj_spec(),
                size as int,
            );
        }
    }
    r
}

/// Singular value decomposition `A = U·S·Vᴴ`, full (`U` is `m × m`, `V` is
/// `n × n`) or thin (both have `min(m, n)` columns).
#[derive(Debug)]
pub struct Svd<T: ComplexField> {
    u: Mat<T>,
    v: Mat<T>,
    s: Vec<T>,
}

/// The shapes of the three parts of a full or thin singular value
/// decomposition.
pub open spec fn svd_shapes<T: ComplexField>(u: &Mat<T>, v: &Mat<T>, s: Seq<T>) -> bool {
    let size = min_nat(u.rows(), v.rows());
    &&& s.len() == size
    &&& ((u.cols() == u.rows() && v.cols() == v.rows()) || (u.cols() == size && v.cols() == size))
}

impl<T: ComplexField> Svd<T> {
    #[verifier::type_invariant]
    spec fn inv(&self) -> bool {
        &&& svd_shapes(&self.u, &self.v, self.s@)
        &&& is_real_seq(self.s@)
    }

    pub closed spec fn factor_u(&self) -> Mat<T> {
        self.u
    }

    pub closed spec fn factor_v(&self) -> Mat<T> {
        self.v
    }

    pub closed spec fn factor_s(&self) -> Seq<T> {
        self.s@
    }

    /// Assembles the decomposition from the singular vectors and values that
    /// a kernel computed for the canonical form of `A`; when `A` was given as
    /// a conjugated view (`conj` is `Yes`), the vectors are conjugated.
    pub fn from_factored(u: Mat<T>, v: Mat<T>, s: Vec<T>, conj: Conj) -> (r: Self)
        requires
            svd_shapes(&u, &v, s@),
            is_real_seq(s@),
        ensures
            is_conj_of(&u, conj, &r.factor_u()),
            is_conj_of(&v, conj, &r.factor_v()),
            r.factor_s() == s@,
    {
        let u = apply_conj(u, conj);
        let v = apply_conj(v, conj);
        Svd { u, v, s }
    }

    /// The left singular vectors.
    pub fn U(&self) -> (r: &Mat<T>)
        ensures
            *r == self.factor_u(),
            svd_shapes(r, &self.factor_v(), self.factor_s()),
    {
        proof {
            use_type_invariant(self);
        }
        &self.u
    }

    /// The right singular vectors.
    pub fn V(&self) -> (r: &Mat<T>)
        ensures
            *r == self.factor_v(),
            svd_shapes(&self.factor_u(), r, self.factor_s()),
    {
        proof {
            use_type_invariant(self);
        }
        &self.v
    }

    /// The singular values.
    pub fn S(&self) -> (r: &[T])
        ensures
            r@ == self.factor_s(),
            svd_shapes(&self.factor_u(), &self.factor_v(), r@),
            is_real_seq(r@),
    {
        proof {
            use_type_invariant(self);
        }
        self.s.as_slice()
    }
}

/// Eigendecomposition `A = U·S·Uᴴ` of a self-adjoint matrix, with `U`
/// unitary and `S` real.
#[derive(Debug)]
pub struct SelfAdjointEigen<T: ComplexField> {
    u: Mat<T>,
    s: Vec<T>,
}

impl<T: ComplexField> SelfAdjointEigen<T> {
    #[verifier::type_invariant]
    spec fn inv(&self) -> bool {
        &&& self.u.rows() == self.u.cols()
        &&& self.s@.len() == self.u.rows()
        &&& is_real_seq(self.s@)
    }

    pub closed spec fn factor_u(&self) -> Mat<T> {
        self.u
    }

    pub closed spec fn factor_s(&self) -> Seq<T> {
        self.s@
    }

    /// The conjugation to apply to the eigenvectors computed from the
    /// canonical data of a self-adjoint matrix given as a view with
    /// conjugation `conj`, whose data lies in the `side` triangle: reading
    /// the upper triangle goes through an adjoint, which flips the flag.
    pub fn effective_conj(conj: Conj, side: Side) -> (r: Conj)
        ensures
            r.is_yes() == (conj.is_yes() != (side == Side::Upper)),
    {
        match side {
            Side::Lower => conj,
            Side::Upper => conj.compose(Conj::Yes),
        }
    }

    /// Assembles the decomposition from the eigenvectors and eigenvalues that
    /// a kernel computed; the eigenvectors are conjugated when `conj` is `Yes`.
    pub fn from_factored(u: Mat<T>, s: Vec<T>, conj: Conj) -> (r: Self)
        requires
            u.rows() == u.cols(),
            s@.len() == u.rows(),
            is_real_seq(s@),
        ensures
            is_conj_of(&u, conj, &r.factor_u()),
            r.factor_s() == s@,
    {
        let u = apply_conj(u, conj);
        SelfAdjointEigen { u, s }
    }

    /// The eigenvectors, one per column.
    pub fn U(&self) -> (r: &Mat<T>)
        ensures
            *r == self.factor_u(),
            r.rows() == r.cols(),
            r.rows() == self.factor_s().len(),
    {
        proof {
            use_type_invariant(self);
        }
        &self.u
    }

    /// The eigenvalues.
    pub fn S(&self) -> (r: &[T])
        ensures
            r@ == self.factor_s(),
            r@.len() == self.factor_u().rows(),
            is_real_seq(r@),
    {
        proof {
            use_type_invariant(self);
        }
        self.s.as_slice()
    }
}

/// The place of index `j` in the eigenvalue list of a real matrix, as the
/// imaginary parts `s_im` lay it out: `0` for a real eigenvalue, `1` for the
/// first of a complex-conjugate pair, `2` for the second. A pair starts at
/// each non-zero imaginary part that does not close the previous pair.
pub open spec fn pair_role<R: RealField>(s_im: Seq<R>, j: int) -> int
    decreases j,
{
    if j < 0 {
        0
    } else if j > 0 && pair_role(s_im, j - 1) == 1 {
        2
    } else if s_im[j] == R::zero_spec() {
        0
    } else {
        1
    }
}

/// Eigenvalue `j` of a real matrix whose eigenvalues have real parts `s_re`
/// and imaginary parts `s_im`; the second of a pair is the conjugate of the
/// first.
pub open spec fn real_eigenvalue<R: RealField>(s_re: Seq<R>, s_im: Seq<R>, j: int) -> Complex<R> {
    let role = pair_role(s_im, j);
    if role == 0 {
        Complex { re: s_re[j], im: R::zero_spec() }
    } else if role == 1 {
        Complex { re: s_re[j], im: s_im[j] }
    } else {
        Complex { re: s_re[j - 1], im: s_im[j - 1].neg_spec() }
    }
}

/// Entry `(i, j)` of the complex eigenvector matrix of a real matrix, from
/// the real storage `u`: a pair starting at `j` stores `v` in column `j` and
/// `w` in column `j + 1`, and its eigenvectors are `v + i·w` and `v − i·w`.
pub open spec fn real_eigenvector_entry<R: RealField>(u: &Mat<R>, s_im: Seq<R>, i: int, j: int) -> Complex<R> {
    let role = pair_role(s_im, j);
    if role == 0 {
        Complex { re: u.at(i, j), im: R::zero_spec() }
    } else if role == 1 {
        Complex { re: u.at(i, j), im: u.at(i, j + 1) }
    } else {
        Complex { re: u.at(i, j - 1), im: u.at(i, j).neg_spec() }
    }
}

/// In the eigendecomposition of a real matrix, the two members of a
/// complex-conjugate pair stand at adjacent indices, with conjugate
/// eigenvalues and conjugate eigenvectors, and a real eigenvalue has a zero
/// imaginary part.
pub proof fn lemma_real_eigen_pairs<R: RealField>(s_re: Seq<R>, s_im: Seq<R>, u: &Mat<R>, i: int, j: int)
    requires
        0 <= j,
    ensures
        pair_role(s_im, j) == 0 ==> real_eigenvalue(s_re, s_im, j).im == R::zero_spec(),
        pair_role(s_im, j) == 1 ==> pair_role(s_im, j + 1) == 2,
        pair_role(s_im, j) == 1 ==> real_eigenvalue(s_re, s_im, j + 1) == real_eigenvalue(s_re, s_im, j).conj_spec(),
        pair_role(s_im, j) == 1 ==> real_eigenvector_entry(u, s_im, i, j + 1) == real_eigenvector_entry(u, s_im, i, j).conj_spec(),
{
    if pair_role(s_im, j) == 1 {
        assert(pair_role(s_im, j + 1) == 2);
    }
}

/// Eigendecomposition `A·U = U·diag(S)` of a general square matrix, over the
/// complex numbers.
#[derive(Debug)]
pub struct Eigen<R: RealField> {
    u: Mat<Complex<R>>,
    s: Vec<Complex<R>>,
}

impl<R: RealField> Eigen<R> {
    #[verifier::type_invariant]
    spec fn inv(&self) -> bool {
        &&& self.u.rows() == self.u.cols()
        &&& self.s@.len() == self.u.rows()
    }

    pub closed spec fn factor_u(&self) -> Mat<Complex<R>> {
        self.u
    }

    pub closed spec fn factor_s(&self) -> Seq<Complex<R>> {
        self.s@
    }

    /// Assembles the decomposition from the eigenvectors and eigenvalues that
    /// a complex kernel computed for the canonical form of `A`. When `A` was
    /// given as a conjugated view (`conj` is `Yes`), the matrix it stands for
    /// is `conj(A)`, whose eigenpairs are the conjugated ones: eigenvectors and
    /// eigenvalues are both conjugated.
    pub fn from_factored(u: Mat<Complex<R>>, s: Vec<Complex<R>>, conj: Conj) -> (r: Self)
        requires
            u.rows() == u.cols(),
            s@.len() == u.rows(),
        ensures
            is_conj_of(&u, conj, &r.factor_u()),
            is_conj_seq_of(s@, conj, r.factor_s()),
    {
        let u = apply_conj(u, conj);
        let s = apply_conj_values(s, conj);
        Eigen { u, s }
    }

    /// Assembles the decomposition of a real matrix from what a real kernel
    /// computed: real and imaginary parts of the eigenvalues, and the real
    /// eigenvector storage in which a complex-conjugate pair shares two
    /// adjacent columns.
    pub fn from_real_parts(s_re: &[R], s_im: &[R], u_real: &Mat<R>) -> (r: Self)
        requires
            u_real.rows() == u_real.cols(),
            s_re@.len() == u_real.rows(),
            s_im@.len() == u_real.rows(),
            u_real.rows() == 0 || pair_role(s_im@, u_real.rows() - 1) != 1,
        ensures
            r.factor_u().rows() == u_real.rows(),
            r.factor_u().cols() == u_real.rows(),
            r.factor_s().len() == u_real.rows(),
            forall|j: int| 0 <= j < u_real.rows() ==> #[trigger] r.factor_s()[j] == real_eigenvalue(s_re@, s_im@, j),
            forall|i: int, j: int|
                0 <= i < u_real.rows() && 0 <= j < u_real.rows() ==> #[trigger] r.factor_u().at(i, j)
                    == real_eigenvector_entry(u_real, s_im@, i, j),
    {
        let (n, _) = u_real.shape();
        let mut u = Mat::<Complex<R>>::zeros(n, n);
        let mut s: Vec<Complex<R>> = Vec::with_capacity(n);
        let mut j: usize = 0;
        while j < n
            invariant
                j <= n,
                n == u_real.rows(),
                n == u_real.cols(),
                s_re@.len() == n,
                s_im@.len() == n,
                n == 0 || pair_role(s_im@, n - 1) != 1,
                j == 0 || pair_role(s_im@, j - 1) != 1,
                u.rows() == n,
                u.cols() == n,
                s@.len() == j,
                forall|k: int| 0 <= k < j ==> #[trigger] s@[k] == real_eigenvalue(s_re@, s_im@, k),
                forall|p: int, q: int|
                    0 <= p < n && 0 <= q < j ==> #[trigger] u.at(p, q) == real_eigenvector_entry(u_real, s_im@, p, q),
            decreases n - j,
        {
            if s_im[j].is_zero() {
                proof {
                    assert(pair_role(s_im@, j as int) == 0);
                }
                s.push(Complex::new(s_re[j], R::zero()));
                let mut i: usize = 0;
                while i < n
                    invariant
                        j < n,
                        i <= n,
                        n == u_real.rows(),
                        n == u_real.cols(),
                        s_im@.len() == n,
                        pair_role(s_im@, j as int) == 0,
                        u.rows() == n,
                        u.cols() == n,
                        forall|p: int, q: int|
                            0 <= p < n && 0 <= q < j ==> #[trigger] u.at(p, q) == real_eigenvector_entry(u_real, s_im@, p, q),
                        forall|p: int| 0 <= p < i ==> #[trigger] u.at(p, j as int) == real_eigenvector_entry(u_real, s_im@, p, j as int),
                    decreases n - i,
                {
                    u.write(i, j, Complex::new(u_real.read(i, j), R::zero()));
                    i = i + 1;
                }
                j = j + 1;
            } else {
                proof {
                    assert(pair_role(s_im@, j as int) == 1);
                    assert(j + 1 < n) by {
                        if j + 1 >= n {
                            assert(j == n - 1);
                        }
                    }
                    assert(pair_role(s_im@, j + 1) == 2);
                }
                s.push(Complex::new(s_re[j], s_im[j]));
                s.push(Complex::new(s_re[j], s_im[j].negate()));
                let mut i: usize = 0;
                while i < n
                    invariant
                        j + 1 < n,
                        i <= n,
                        n == u_real.rows(),
                        n == u_real.cols(),
                        s_im@.len() == n,
                        pair_role(s_im@, j as int) == 1,
                        pair_role(s_im@, j + 1) == 2,
                        u.rows() == n,
                        u.cols() == n,
                        forall|p: int, q: int|
                            0 <= p < n && 0 <= q < j ==> #[trigger] u.at(p, q) == real_eigenvector_entry(u_real, s_im@, p, q),
                        forall|p: int| 0 <= p < i ==> #[trigger] u.at(p, j as int) == real_eigenvector_entry(u_real, s_im@, p, j as int),
                        forall|p: int| 0 <= p < i ==> #[trigger] u.at(p, j + 1) == real_eigenvector_entry(u_real, s_im@, p, j + 1),
                    decreases n - i,
                {
                    let v = u_real.read(i, j);
                    let w = u_real.read(i, j + 1);
                    u.write(i, j, Complex::new(v, w));
                    u.write(i, j + 1, Complex::new(v, w.negate()));
                    i = i + 1;
                }
                j = j + 2;
            }
        }
        Eigen { u, s }
    }

    /// The eigenvectors, one per column.
    pub fn U(&self) -> (r: &Mat<Complex<R>>)
        ensures
            *r == self.factor_u(),
            r.rows() == r.cols(),
            r.rows() == self.factor_s().len(),
    {
        proof {
            use_type_invariant(self);
        }
        &self.u
    }

    /// The eigenvalues.
    pub fn S(&self) -> (r: &[Complex<R>])
        ensures
            r@ == self.factor_s(),
            r@.len() == self.factor_u().rows(),
    {
        proof {
            use_type_invariant(self);
        }
        self.s.as_slice()
    }
}

impl<T: ComplexField> ShapeCore for Svd<T> {
    open spec fn shape_rows(&self) -> nat {
        self.factor_u().rows()
    }

    open spec fn shape_cols(&self) -> nat {
        self.factor_v().rows()
    }

    fn nrows(&self) -> (r: usize) {
        self.u.nrows()
    }

    fn ncols(&self) -> (r: usize) {
        self.v.nrows()
    }
}

impl<T: ComplexField> ShapeCore for SelfAdjointEigen<T> {
    open spec fn shape_rows(&self) -> nat {
        self.factor_u().rows()
    }

    open spec fn shape_cols(&self) -> nat {
        self.factor_u().rows()
    }

    fn nrows(&self) -> (r: usize) {
        self.u.nrows()
    }

    fn ncols(&self) -> (r: usize) {
        self.u.nrows()
    }
}

impl<R: RealField> ShapeCore for Eigen<R> {
    open spec fn shape_rows(&self) -> nat {
        self.factor_u().rows()
    }

    open spec fn shape_cols(&self) -> nat {
        self.factor_u().rows()
    }

    fn nrows(&self) -> (r: usize) {
        self.u.nrows()
    }

    fn ncols(&self) -> (r: usize) {
        self.u.nrows()
    }
}

impl<T: ComplexField> SolveCore<T> for Svd<T> {
    /// `V·S⁻¹·Uᴴ·B`, with `U` and `V` conjugated when `conj` says so.
    open spec fn solve_at(&self, conj: Conj, rhs: &Mat<T>, i: int, j: int) -> T {
        spectral_solve_at(&self.factor_v(), conj, &self.factor_u(), conj.flipped(), self.factor_s(), rhs, self.factor_u().rows() as int, i, j)
    }

    /// `U·S⁻¹·Vᴴ·B`, conjugated as the transpose calls for.
    open spec fn solve_transpose_at(&self, conj: Conj, rhs: &Mat<T>, i: int, j: int) -> T {
        spectral_solve_at(&self.factor_u(), conj.flipped(), &self.factor_v(), conj, self.factor_s(), rhs, self.factor_u().rows() as int, i, j)
    }

    fn solve_in_place_with_conj(&self, conj: Conj, rhs: &mut Mat<T>) {
        proof {
            use_type_invariant(self);
        }
        let n = self.u.nrows();
        let x = spectral_solve(&self.v, conj, &self.u, conj.compose(Conj::Yes), self.s.as_slice(), rhs, n, n);
        *rhs = x;
    }

    fn solve_transpose_in_place_with_conj(&self, conj: Conj, rhs: &mut Mat<T>) {
        proof {
            use_type_invariant(self);
        }
        let n = self.u.nrows();
        let x = spectral_solve(&self.u, conj.compose(Conj::Yes), &self.v, conj, self.s.as_slice(), rhs, n, n);
        *rhs = x;
    }
}

impl<T: ComplexField> SolveLstsqCore<T> for Svd<T> {
    /// `V·S⁻¹·Uᴴ·B` over the leading `min(m, n)` singular triplets.
    open spec fn lstsq_at(&self, conj: Conj, rhs: &Mat<T>, i: int, j: int) -> T {
        spectral_solve_at(&self.factor_v(), conj, &self.factor_u(), conj.flipped(), self.factor_s(), rhs, self.factor_v().rows() as int, i, j)
    }

    fn solve_lstsq_in_place_with_conj(&self, conj: Conj, rhs: &mut Mat<T>) {
        proof {
            use_type_invariant(self);
        }
        let n = self.v.nrows();
        let x = spectral_solve(&self.v, conj, &self.u, conj.compose(Conj::Yes), self.s.as_slice(), rhs, n, n);
        overwrite_leading_rows(rhs, &x);
    }
}

impl<T: ComplexField> DenseSolveCore<T> for Svd<T> {
    /// `U·S·Vᴴ` over the leading `min(m, n)` singular triplets.
    open spec fn reconstruct_at(&self, i: int, j: int) -> T {
        spectral_product_at(&self.factor_u(), self.factor_s(), false, &self.factor_v(), self.factor_s().len() as int, i, j)
    }

    /// `V·S⁻¹·Uᴴ`.
    open spec fn inverse_at(&self, i: int, j: int) -> T {
        spectral_product_at(&self.factor_v(), self.factor_s(), true, &self.factor_u(), self.factor_s().len() as int, i, j)
    }

    fn reconstruct(&self) -> (r: Mat<T>) {
        proof {
            use_type_invariant(self);
        }
        let size = self.s.len();
        spectral_product(&self.u, self.s.as_slice(), false, &self.v, size)
    }

    fn inverse(&self) -> (r: Mat<T>) {
        proof {
            use_type_invariant(self);
        }
        let n = self.u.nrows();
        spectral_product(&self.v, self.s.as_slice(), true, &self.u, n)
    }
}

/// Solving with the decomposition of `conj(A)` without conjugation gives
/// exactly what solving with the decomposition of `A` with conjugation
/// gives: the two decompositions share their singular values, and the
/// singular vectors of the first are the conjugates of those of the second.
pub proof fn lemma_svd_conjugated_solve<T: ComplexField>(plain: &Svd<T>, conjugated: &Svd<T>, rhs: &Mat<T>, i: int, j: int)
    requires
        plain.factor_u().rows() == plain.factor_u().cols(),
        plain.factor_v().rows() == plain.factor_u().rows(),
        plain.factor_v().cols() == plain.factor_u().rows(),
        is_conj_of(&plain.factor_u(), Conj::Yes, &conjugated.factor_u()),
        is_conj_of(&plain.factor_v(), Conj::Yes, &conjugated.factor_v()),
        conjugated.factor_s() == plain.factor_s(),
        rhs.rows() == plain.factor_u().rows(),
        0 <= i < plain.factor_u().rows(),
    ensures
        conjugated.solve_at(Conj::No, rhs, i, j) == plain.solve_at(Conj::Yes, rhs, i, j),
{
    let n = plain.factor_u().rows() as int;
    let u = plain.factor_u();
    let v = plain.factor_v();
    let cu = conjugated.factor_u();
    let cv = conjugated.factor_v();
    let w = plain.factor_s();
    assert forall|t: int| 0 <= t < n implies #[trigger] product_at(&cu, true, Conj::Yes, rhs, false, Conj::No, n, t, j)
        == product_at(&u, true, Conj::No, rhs, false, Conj::No, n, t, j) by {
        assert forall|s: int| 0 <= s < n implies #[trigger] op_at(&cu, true, Conj::Yes, t, s) == op_at(&u, true, Conj::No, t, s) by {
            T::lemma_conj_conj(u.at(s, t));
        }
        lemma_sum_congruent(
            |s: int| op_at(&cu, true, Conj::Yes, t, s),
            |s: int| op_at(rhs, false, Conj::No, s, j),
            |s: int| op_at(&u, true, Conj::No, t, s),
            |s: int| op_at(rhs, false, Conj::No, s, j),
            n,
        );
    }
    lemma_sum_congruent(
        |t: int| op_at(&cv, false, Conj::No, i, t),
        |t: int| product_at(&cu, true, Conj::Yes, rhs, false, Conj::No, n, t, j).mul_spec(weight(w[t], true)),
        |t: int| op_at(&v, false, Conj::Yes, i, t),
        |t: int| product_at(&u, true, Conj::No, rhs, false, Conj::No, n, t, j).mul_spec(weight(w[t], true)),
        n,
    );
}

impl<T: ComplexField> SolveCore<T> for SelfAdjointEigen<T> {
    /// `U·S⁻¹·Uᴴ·B`, with `U` conjugated when `conj` says so.
    open spec fn solve_at(&self, conj: Conj, rhs: &Mat<T>, i: int, j: int) -> T {
        spectral_solve_at(&self.factor_u(), conj, &self.factor_u(), conj.flipped(), self.factor_s(), rhs, self.factor_u().rows() as int, i, j)
    }

    /// `conj(U)·S⁻¹·Uᵀ·B`, conjugated as the transpose calls for.
    open spec fn solve_transpose_at(&self, conj: Conj, rhs: &Mat<T>, i: int, j: int) -> T {
        spectral_solve_at(&self.factor_u(), conj.flipped(), &self.factor_u(), conj, self.factor_s(), rhs, self.factor_u().rows() as int, i, j)
    }

    fn solve_in_place_with_conj(&self, conj: Conj, rhs: &mut Mat<T>) {
        proof {
            use_type_invariant(self);
        }
        let n = self.u.nrows();
        let x = spectral_solve(&self.u, conj, &self.u, conj.compose(Conj::Yes), self.s.as_slice(), rhs, n, n);
        *rhs = x;
    }

    fn solve_transpose_in_place_with_conj(&self, conj: Conj, rhs: &mut Mat<T>) {
        proof {
            use_type_invariant(self);
        }
        let n = self.u.nrows();
        let x = spectral_solve(&self.u, conj.compose(Conj::Yes), &self.u, conj, self.s.as_slice(), rhs, n, n);
        *rhs = x;
    }
}

/// The reconstruction and the inverse that a self-adjoint eigendecomposition
/// gives are exactly self-adjoint: each entry is the conjugate of its mirror
/// image, and the diagonal is real.
pub proof fn lemma_self_adjoint_eigen_dense_is_self_adjoint<T: ComplexField>(f: &SelfAdjointEigen<T>, i: int, j: int)
    ensures
        f.reconstruct_at(i, j) == f.reconstruct_at(j, i).conj_spec(),
        f.inverse_at(i, j) == f.inverse_at(j, i).conj_spec(),
        f.reconstruct_at(i, i) == f.reconstruct_at(i, i).real_spec(),
        f.inverse_at(i, i) == f.inverse_at(i, i).real_spec(),
{
    lemma_self_adjoint_from_lower(
        |p: int, q: int| spectral_product_at(&f.factor_u(), f.factor_s(), false, &f.factor_u(), f.factor_s().len() as int, p, q),
        i,
        j,
    );
    lemma_self_adjoint_from_lower(
        |p: int, q: int| spectral_product_at(&f.factor_u(), f.factor_s(), true, &f.factor_u(), f.factor_s().len() as int, p, q),
        i,
        j,
    );
}

impl<T: ComplexField> DenseSolveCore<T> for SelfAdjointEigen<T> {
    /// `U·S·Uᴴ`, made exactly self-adjoint from its lower triangle.
    open spec fn reconstruct_at(&self, i: int, j: int) -> T {
        self_adjoint_from_lower(
            |p: int, q: int| spectral_product_at(&self.factor_u(), self.factor_s(), false, &self.factor_u(), self.factor_s().len() as int, p, q),
            i,
            j,
        )
    }

    /// `U·S⁻¹·Uᴴ`, made exactly self-adjoint from its lower triangle.
    open spec fn inverse_at(&self, i: int, j: int) -> T {
        self_adjoint_from_lower(
            |p: int, q: int| spectral_product_at(&self.factor_u(), self.factor_s(), true, &self.factor_u(), self.factor_s().len() as int, p, q),
            i,
            j,
        )
    }

    fn reconstruct(&self) -> (r: Mat<T>) {
        proof {
            use_type_invariant(self);
        }
        let n = self.s.len();
        let mut r = spectral_product(&self.u, self.s.as_slice(), false, &self.u, n);
        make_self_adjoint(&mut r);
        r
    }

    fn inverse(&self) -> (r: Mat<T>) {
        proof {
            use_type_invariant(self);
        }
        let n = self.u.nrows();
        let mut r = spectral_product(&self.u, self.s.as_slice(), true, &self.u, n);
        make_self_adjoint(&mut r);
        r
    }
}

} // verus!
