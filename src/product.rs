//! Matrix products over the exact scalar operations.
use vstd::prelude::*;

use crate::mat::Mat;
use crate::scalar::ComplexField;
use crate::solvers::Conj;

verus! {

/// `f(0)·g(0) + f(1)·g(1) + … + f(k − 1)·g(k − 1)`, summed from the left.
pub open spec fn sum_of_products<T: ComplexField>(f: spec_fn(int) -> T, g: spec_fn(int) -> T, k: int) -> T
    decreases k,
{
    if k <= 0 {
        T::zero_spec()
    } else {
        sum_of_products(f, g, k - 1).add_spec(f(k - 1).mul_spec(g(k - 1)))
    }
}

/// Sums of products agree when their terms agree.
pub proof fn lemma_sum_congruent<T: ComplexField>(
    f1: spec_fn(int) -> T,
    g1: spec_fn(int) -> T,
    f2: spec_fn(int) -> T,
    g2: spec_fn(int) -> T,
    k: int,
)
    requires
        forall|t: int| 0 <= t < k ==> #[trigger] f1(t) == f2(t),
        forall|t: int| 0 <= t < k ==> #[trigger] g1(t) == g2(t),
    ensures
        sum_of_products(f1, g1, k) == sum_of_products(f2, g2, k),
    decreases k,
{
    if k > 0 {
        lemma_sum_congruent(f1, g1, f2, g2, k - 1);
    }
}

/// Entry `(i, j)` of `a` used as an operand: transposed when `trans`, and
/// conjugated when `conj` says so.
pub open spec fn op_at<T: ComplexField>(a: &Mat<T>, trans: bool, conj: Conj, i: int, j: int) -> T {
    conj.apply(if trans { a.at(j, i) } else { a.at(i, j) })
}

pub open spec fn op_rows<T>(a: &Mat<T>, trans: bool) -> nat {
    if trans { a.cols() } else { a.rows() }
}

pub open spec fn op_cols<T>(a: &Mat<T>, trans: bool) -> nat {
    if trans { a.rows() } else { a.cols() }
}

/// Entry `(i, j)` of the product of the operands `a` and `b` over their
/// first `inner` columns and rows.
pub open spec fn product_at<T: ComplexField>(
    a: &Mat<T>,
    ta: bool,
    ca: Conj,
    b: &Mat<T>,
    tb: bool,
    cb: Conj,
    inner: int,
    i: int,
    j: int,
) -> T {
    sum_of_products(|t: int| op_at(a, ta, ca, i, t), |t: int| op_at(b, tb, cb, t, j), inner)
}

fn op_read<T: ComplexField>(a: &Mat<T>, trans: bool, conj: Conj, i: usize, j: usize) -> (r: T)
    requires
        i < op_rows(a, trans),
        j < op_cols(a, trans),
    ensures
        r == op_at(a, trans, conj, i as int, j as int),
{
    let x = if trans {
        a.read(j, i)
    } else {
        a.read(i, j)
    };
    match conj {
        Conj::Yes => x.conj(),
        Conj::No => x,
    }
}

/// The `rows × cols` leading block of the product of the operands `a` and
/// `b`, summed over their first `inner` columns and rows.
pub fn matmul<T: ComplexField>(
    a: &Mat<T>,
    ta: bool,
    ca: Conj,
    b: &Mat<T>,
    tb: bool,
    cb: Conj,
    rows: usize,
    cols: usize,
    inner: usize,
) -> (r: Mat<T>)
    requires
        rows <= op_rows(a, ta),
        cols <= op_cols(b, tb),
        inner <= op_cols(a, ta),
        inner <= op_rows(b, tb),
        rows * cols <= usize::MAX,
    ensures
        r.rows() == rows,
        r.cols() == cols,
        forall|i: int, j: int|
            0 <= i < rows && 0 <= j < cols ==> #[trigger] r.at(i, j) == product_at(a, ta, ca, b, tb, cb, inner as int, i, j),
{
    let mut r = Mat::<T>::zeros(rows, cols);
    let mut j: usize = 0;
    while j < cols
        invariant
            j <= cols,
            rows <= op_rows(a, ta),
            cols <= op_cols(b, tb),
            inner <= op_cols(a, ta),
            inner <= op_rows(b, tb),
            r.rows() == rows,
            r.cols() == cols,
            forall|p: int, q: int|
                0 <= p < rows && 0 <= q < j ==> #[trigger] r.at(p, q) == product_at(a, ta, ca, b, tb, cb, inner as int, p, q),
        decreases cols - j,
    {
        let mut i: usize = 0;
        while i < rows
            invariant
                j < cols,
                i <= rows,
                rows <= op_rows(a, ta),
                cols <= op_cols(b, tb),
                inner <= op_cols(a, ta),
                inner <= op_rows(b, tb),
                r.rows() == rows,
                r.cols() == cols,
                forall|p: int, q: int|
                    0 <= p < rows && 0 <= q < j ==> #[trigger] r.at(p, q) == product_at(a, ta, ca, b, tb, cb, inner as int, p, q),
                forall|p: int| 0 <= p < i ==> #[trigger] r.at(p, j as int) == product_at(a, ta, ca, b, tb, cb, inner as int, p, j as int),
            decreases rows - i,
        {
            let ghost f = |t: int| op_at(a, ta, ca, i as int, t);
            let ghost g = |t: int| op_at(b, tb, cb, t, j as int);
            let mut acc = T::zero();
            let mut t: usize = 0;
            while t < inner
                invariant
                    t <= inner,
                    i < rows,
                    j < cols,
                    rows <= op_rows(a, ta),
                    cols <= op_cols(b, tb),
                    inner <= op_cols(a, ta),
                    inner <= op_rows(b, tb),
                    f == (|t: int| op_at(a, ta, ca, i as int, t)),
                    g == (|t: int| op_at(b, tb, cb, t, j as int)),
                    acc == sum_of_products(f, g, t as int),
                decreases inner - t,
            {
                let x = op_read(a, ta, ca, i, t);
                let y = op_read(b, tb, cb, t, j);
                acc = acc.plus(&x.times(&y));
                t = t + 1;
            }
            r.write(i, j, acc);
            i = i + 1;
        }
        j = j + 1;
    }
    r
}

} // verus!
