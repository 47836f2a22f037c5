//! Triangular copies, the split of an in-place factorization into its two
//! triangular factors, and the forcing of exact self-adjointness.
use vstd::prelude::*;

use crate::mat::Mat;
use crate::scalar::ComplexField;

verus! {

/// Which triangle of a self-adjoint matrix holds its data.
#[derive(Debug, Clone, Copy, PartialEq, Eq)]
pub enum Side {
    Lower,
    Upper,
}

/// Entry `(i, j)`, for `i >= j`, of the lower triangle of the self-adjoint
/// matrix that `a` stores in its `side` triangle.
pub open spec fn lower_source<T: ComplexField>(a: &Mat<T>, side: Side, i: int, j: int) -> T {
    match side {
        Side::Lower => a.at(i, j),
        Side::Upper => a.at(j, i).conj_spec(),
    }
}

/// An `n × n` working matrix holding the lower triangle of the self-adjoint
/// matrix that `a` stores in its `side` triangle, with zeros above the
/// diagonal.
pub fn lower_working_copy<T: ComplexField>(a: &Mat<T>, side: Side) -> (r: Mat<T>)
    requires
        a.rows() == a.cols(),
    ensures
        r.rows() == a.rows(),
        r.cols() == a.rows(),
        forall|i: int, j: int|
            0 <= j <= i < a.rows() ==> #[trigger] r.at(i, j) == lower_source(a, side, i, j),
        forall|i: int, j: int| 0 <= i < j < a.rows() ==> #[trigger] r.at(i, j) == T::zero_spec(),
{
    let (n, _) = a.shape();
    let mut r = Mat::<T>::zeros(n, n);
    let mut j: usize = 0;
    while j < n
        invariant
            j <= n,
            n == a.rows(),
            n == a.cols(),
            r.rows() == n,
            r.cols() == n,
            forall|p: int, q: int|
                0 <= q < j && q <= p < n ==> #[trigger] r.at(p, q) == lower_source(a, side, p, q),
            forall|p: int, q: int| 0 <= p < q < n ==> #[trigger] r.at(p, q) == T::zero_spec(),
        decreases n - j,
    {
        let mut i: usize = j;
        while i < n
            invariant
                j < n,
                j <= i <= n,
                n == a.rows(),
                n == a.cols(),
                r.rows() == n,
                r.cols() == n,
                forall|p: int, q: int|
                    0 <= q < j && q <= p < n ==> #[trigger] r.at(p, q) == lower_source(a, side, p, q),
                forall|p: int| j <= p < i ==> #[trigger] r.at(p, j as int) == lower_source(a, side, p, j as int),
                forall|p: int, q: int| 0 <= p < q < n ==> #[trigger] r.at(p, q) == T::zero_spec(),
            decreases n - i,
        {
            let v = match side {
                Side::Lower => a.read(i, j),
                Side::Upper => a.read(j, i).conj(),
            };
            r.write(i, j, v);
            i = i + 1;
        }
        j = j + 1;
    }
    r
}

/// Entry `(i, j)` of the unit lower-trapezoidal factor stored in `lu`: the
/// strict lower part of `lu`, ones on the diagonal, zeros above.
pub open spec fn unit_lower_entry<T: ComplexField>(lu: &Mat<T>, i: int, j: int) -> T {
    if i > j {
        lu.at(i, j)
    } else if i == j {
        T::one_spec()
    } else {
        T::zero_spec()
    }
}

/// Entry `(i, j)` of the upper-trapezoidal factor stored in `lu`: the upper
/// part of `lu` with its diagonal, zeros below.
pub open spec fn upper_entry<T: ComplexField>(lu: &Mat<T>, i: int, j: int) -> T {
    if i <= j {
        lu.at(i, j)
    } else {
        T::zero_spec()
    }
}

pub open spec fn min_nat(a: nat, b: nat) -> nat {
    if a <= b {
        a
    } else {
        b
    }
}

/// `l` is the `m × min(m, n)` unit lower factor and `u` the `min(m, n) × n`
/// upper factor that an `m × n` in-place factorization `lu` stores.
pub open spec fn is_split_of<T: ComplexField>(lu: &Mat<T>, l: &Mat<T>, u: &Mat<T>) -> bool {
    let size = min_nat(lu.rows(), lu.cols());
    &&& l.rows() == lu.rows()
    &&& l.cols() == size
    &&& u.rows() == size
    &&& u.cols() == lu.cols()
    &&& forall|i: int, j: int|
        0 <= i < l.rows() && 0 <= j < l.cols() ==> #[trigger] l.at(i, j) == unit_lower_entry(lu, i, j)
    &&& forall|i: int, j: int|
        0 <= i < u.rows() && 0 <= j < u.cols() ==> #[trigger] u.at(i, j) == upper_entry(lu, i, j)
}

/// The `rows × cols` leading block of `lu`, with every entry passed through
/// `unit_lower_entry` (when `lower`) or `upper_entry`.
fn triangle_of<T: ComplexField>(lu: &Mat<T>, rows: usize, cols: usize, lower: bool) -> (r: Mat<T>)
    requires
        rows <= lu.rows(),
        cols <= lu.cols(),
    ensures
        r.rows() == rows,
        r.cols() == cols,
        forall|i: int, j: int|
            0 <= i < rows && 0 <= j < cols ==> #[trigger] r.at(i, j) == if lower {
                unit_lower_entry(lu, i, j)
            } else {
                upper_entry(lu, i, j)
            },
{
    let (m, n) = lu.shape();
    proof {
        assert(rows * cols <= m * n) by (nonlinear_arith)
            requires
                rows <= m,
                cols <= n,
        ;
    }
    let mut r = Mat::<T>::zeros(rows, cols);
    let mut j: usize = 0;
    while j < cols
        invariant
            j <= cols,
            rows <= lu.rows(),
            cols <= lu.cols(),
            r.rows() == rows,
            r.cols() == cols,
            forall|p: int, q: int|
                0 <= p < rows && 0 <= q < j ==> #[trigger] r.at(p, q) == if lower {
                    unit_lower_entry(lu, p, q)
                } else {
                    upper_entry(lu, p, q)
                },
        decreases cols - j,
    {
        let mut i: usize = 0;
        while i < rows
            invariant
                j < cols,
                i <= rows,
                rows <= lu.rows(),
                cols <= lu.cols(),
                r.rows() == rows,
                r.cols() == cols,
                forall|p: int, q: int|
                    0 <= p < rows && 0 <= q < j ==> #[trigger] r.at(p, q) == if lower {
                        unit_lower_entry(lu, p, q)
                    } else {
                        upper_entry(lu, p, q)
                    },
                forall|p: int| 0 <= p < i ==> #[trigger] r.at(p, j as int) == if lower {
                    unit_lower_entry(lu, p, j as int)
                } else {
                    upper_entry(lu, p, j as int)
                },
            decreases rows - i,
        {
            let v = if lower {
                if i > j {
                    lu.read(i, j)
                } else if i == j {
                    T::one()
                } else {
                    T::zero()
                }
            } else {
                if i <= j {
                    lu.read(i, j)
                } else {
                    T::zero()
                }
            };
            r.write(i, j, v);
            i = i + 1;
        }
        j = j + 1;
    }
    r
}

/// Splits an in-place LU (or QR) factorization into its unit lower factor
/// (Householder basis for QR) and its upper factor.
pub fn split_lu<T: ComplexField>(lu: Mat<T>) -> (r: (Mat<T>, Mat<T>))
    ensures
        is_split_of(&lu, &r.0, &r.1),
{
    let (m, n) = lu.shape();
    let size = if m <= n {
        m
    } else {
        n
    };
    let l = triangle_of(&lu, m, size, true);
    let u = triangle_of(&lu, size, n, false);
    (l, u)
}

/// Sets every entry above the diagonal to zero, and, when `unit`, every
/// diagonal entry to one.
pub fn clear_upper<T: ComplexField>(a: &mut Mat<T>, unit: bool)
    ensures
        final(a).rows() == old(a).rows(),
        final(a).cols() == old(a).cols(),
        forall|i: int, j: int|
            0 <= i < old(a).rows() && 0 <= j < old(a).cols() ==> #[trigger] final(a).at(i, j) == if i > j {
                old(a).at(i, j)
            } else if i == j && unit {
                T::one_spec()
            } else if i == j {
                old(a).at(i, j)
            } else {
                T::zero_spec()
            },
{
    let ghost a0 = *a;
    let (m, n) = a.shape();
    let mut j: usize = 0;
    while j < n
        invariant
            j <= n,
            a.rows() == m,
            a.cols() == n,
            m == a0.rows(),
            n == a0.cols(),
            forall|p: int, q: int|
                0 <= p < m && 0 <= q < n ==> #[trigger] a.at(p, q) == if q >= j || p > q {
                    a0.at(p, q)
                } else if p == q && unit {
                    T::one_spec()
                } else if p == q {
                    a0.at(p, q)
                } else {
                    T::zero_spec()
                },
        decreases n - j,
    {
        let mut i: usize = 0;
        while i < m && i <= j
            invariant
                j < n,
                i <= m,
                i <= j + 1,
                a.rows() == m,
                a.cols() == n,
                m == a0.rows(),
                n == a0.cols(),
                forall|p: int, q: int|
                    0 <= p < m && 0 <= q < n ==> #[trigger] a.at(p, q) == if q > j || (q == j && p >= i) || p > q {
                        a0.at(p, q)
                    } else if p == q && unit {
                        T::one_spec()
                    } else if p == q {
                        a0.at(p, q)
                    } else {
                        T::zero_spec()
                    },
            decreases m - i,
        {
            if i < j {
                a.write(i, j, T::zero());
            } else if unit {
                a.write(i, j, T::one());
            }
            i = i + 1;
        }
        j = j + 1;
    }
}

/// `a` is exactly self-adjoint: each entry is the conjugate of its mirror
/// image, so the diagonal is real.
pub open spec fn is_self_adjoint<T: ComplexField>(a: &Mat<T>) -> bool {
    &&& a.rows() == a.cols()
    &&& forall|i: int, j: int|
        0 <= i < a.rows() && 0 <= j < a.cols() ==> #[trigger] a.at(i, j) == a.at(j, i).conj_spec()
}

/// Makes a square matrix exactly self-adjoint from its lower triangle: the
/// diagonal becomes its real part, and each entry above the diagonal the
/// conjugate of its mirror image.
pub fn make_self_adjoint<T: ComplexField>(a: &mut Mat<T>)
    requires
        old(a).rows() == old(a).cols(),
    ensures
        final(a).rows() == old(a).rows(),
        final(a).cols() == old(a).cols(),
        forall|i: int, j: int|
            0 <= j < i < old(a).rows() ==> #[trigger] final(a).at(i, j) == old(a).at(i, j),
        forall|i: int| 0 <= i < old(a).rows() ==> #[trigger] final(a).at(i, i) == old(a).at(i, i).real_spec(),
        forall|i: int, j: int|
            0 <= i < j < old(a).rows() ==> #[trigger] final(a).at(i, j) == old(a).at(j, i).conj_spec(),
        is_self_adjoint(final(a)),
{
    let ghost a0 = *a;
    let (n, _) = a.shape();
    let mut j: usize = 0;
    while j < n
        invariant
            j <= n,
            a.rows() == n,
            a.cols() == n,
            a0.rows() == n,
            a0.cols() == n,
            forall|p: int, q: int| 0 <= q < p < n ==> #[trigger] a.at(p, q) == a0.at(p, q),
            forall|p: int| 0 <= p < n ==> #[trigger] a.at(p, p) == if p < j {
                a0.at(p, p).real_spec()
            } else {
                a0.at(p, p)
            },
            forall|p: int, q: int| 0 <= p < q < j ==> #[trigger] a.at(p, q) == a0.at(q, p).conj_spec(),
        decreases n - j,
    {
        let d = a.read(j, j).real_part();
        a.write(j, j, d);
        let mut i: usize = 0;
        while i < j
            invariant
                j < n,
                i <= j,
                a.rows() == n,
                a.cols() == n,
                a0.rows() == n,
                a0.cols() == n,
                forall|p: int, q: int| 0 <= q < p < n ==> #[trigger] a.at(p, q) == a0.at(p, q),
                forall|p: int| 0 <= p < n ==> #[trigger] a.at(p, p) == if p <= j {
                    a0.at(p, p).real_spec()
                } else {
                    a0.at(p, p)
                },
                forall|p: int, q: int|
                    0 <= p < q < n && (q < j || (q == j && p < i)) ==> #[trigger] a.at(p, q) == a0.at(q, p).conj_spec(),
            decreases j - i,
        {
            let v = a.read(j, i).conj();
            a.write(i, j, v);
            i = i + 1;
        }
        j = j + 1;
    }
    proof {
        assert forall|p: int, q: int| 0 <= p < n && 0 <= q < n implies #[trigger] a.at(p, q) == a.at(q, p).conj_spec() by {
            if p > q {
                T::lemma_conj_conj(a0.at(p, q));
            } else if p == q {
                T::lemma_real_self_adjoint(a0.at(p, p));
            }
        }
    }
}

/// Replaces every entry by its conjugate.
pub fn conjugate_in_place<T: ComplexField>(a: &mut Mat<T>)
    ensures
        final(a).rows() == old(a).rows(),
        final(a).cols() == old(a).cols(),
        forall|i: int, j: int|
            0 <= i < old(a).rows() && 0 <= j < old(a).cols() ==> #[trigger] final(a).at(i, j) == old(a).at(i, j).conj_spec(),
{
    let ghost a0 = *a;
    let (m, n) = a.shape();
    let mut j: usize = 0;
    while j < n
        invariant
            j <= n,
            a.rows() == m,
            a.cols() == n,
            a0.rows() == m,
            a0.cols() == n,
            forall|p: int, q: int|
                0 <= p < m && 0 <= q < n ==> #[trigger] a.at(p, q) == if q < j {
                    a0.at(p, q).conj_spec()
                } else {
                    a0.at(p, q)
                },
        decreases n - j,
    {
        let mut i: usize = 0;
        while i < m
            invariant
                j < n,
                i <= m,
                a.rows() == m,
                a.cols() == n,
                a0.rows() == m,
                a0.cols() == n,
                forall|p: int, q: int|
                    0 <= p < m && 0 <= q < n ==> #[trigger] a.at(p, q) == if q < j || (q == j && p < i) {
                        a0.at(p, q).conj_spec()
                    } else {
                        a0.at(p, q)
                    },
            decreases m - i,
        {
            let v = a.read(i, j).conj();
            a.write(i, j, v);
            i = i + 1;
        }
        j = j + 1;
    }
}

} // verus!
