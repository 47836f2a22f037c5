//! Dense owned matrices, stored column by column.
use vstd::prelude::*;

use crate::scalar::ComplexField;

verus! {

/// The offset of entry `(i, j)` in column-major storage with `m` rows lies
/// within an `m × n` buffer, and distinct entries have distinct offsets.
pub proof fn lemma_offset(m: int, n: int, i: int, j: int)
    requires
        0 <= i < m,
        0 <= j < n,
    ensures
        0 <= j * m + i < m * n,
{
    assert(0 <= j * m) by (nonlinear_arith)
        requires
            0 <= j,
            0 <= m,
    ;
    assert(j * m + i < m * n) by (nonlinear_arith)
        requires
            0 <= i < m,
            0 <= j < n,
    ;
}

pub proof fn lemma_offset_distinct(m: int, i: int, j: int, i2: int, j2: int)
    requires
        0 <= i < m,
        0 <= i2 < m,
        0 <= j,
        0 <= j2,
        i != i2 || j != j2,
    ensures
        j * m + i != j2 * m + i2,
{
    if j == j2 {
    } else if j < j2 {
        assert(j * m + i < j2 * m + i2) by (nonlinear_arith)
            requires
                0 <= i < m,
                0 <= i2,
                j < j2,
        ;
    } else {
        assert(j2 * m + i2 < j * m + i) by (nonlinear_arith)
            requires
                0 <= i2 < m,
                0 <= i,
                j2 < j,
        ;
    }
}

/// An `nrows × ncols` matrix of scalars.
#[derive(Debug)]
pub struct Mat<T> {
    nrows: usize,
    ncols: usize,
    data: Vec<T>,
}

impl<T> Mat<T> {
    #[verifier::type_invariant]
    spec fn inv(&self) -> bool {
        self.data.len() == self.nrows * self.ncols
    }

    pub closed spec fn rows(&self) -> nat {
        self.nrows as nat
    }

    pub closed spec fn cols(&self) -> nat {
        self.ncols as nat
    }

    /// Entry in row `i` and column `j`.
    pub closed spec fn at(&self, i: int, j: int) -> T {
        self.data@[j * self.nrows + i]
    }

    /// The matrix as a sequence of rows.
    pub open spec fn view(&self) -> Seq<Seq<T>> {
        Seq::new(self.rows(), |i: int| Seq::new(self.cols(), |j: int| self.at(i, j)))
    }

    /// The number of rows.
    pub fn nrows(&self) -> (r: usize)
        ensures
            r == self.rows(),
            self.rows() * self.cols() <= usize::MAX,
    {
        proof {
            use_type_invariant(self);
        }
        self.nrows
    }

    /// The number of columns.
    pub fn ncols(&self) -> (r: usize)
        ensures
            r == self.cols(),
            self.rows() * self.cols() <= usize::MAX,
    {
        proof {
            use_type_invariant(self);
        }
        self.ncols
    }

    /// The numbers of rows and columns.
    pub fn shape(&self) -> (r: (usize, usize))
        ensures
            r.0 == self.rows(),
            r.1 == self.cols(),
            self.rows() * self.cols() <= usize::MAX,
    {
        proof {
            use_type_invariant(self);
        }
        (self.nrows, self.ncols)
    }
}

impl<T: Copy> Mat<T> {
    /// An `nrows × ncols` matrix whose entries are all `value`.
    pub fn filled(nrows: usize, ncols: usize, value: T) -> (r: Self)
        requires
            nrows * ncols <= usize::MAX,
        ensures
            r.rows() == nrows,
            r.cols() == ncols,
            forall|i: int, j: int| 0 <= i < nrows && 0 <= j < ncols ==> #[trigger] r.at(i, j) == value,
    {
        let len = nrows * ncols;
        let mut data: Vec<T> = Vec::with_capacity(len);
        let mut k: usize = 0;
        while k < len
            invariant
                k <= len,
                len == nrows * ncols,
                data.len() == k,
                forall|t: int| 0 <= t < k ==> data@[t] == value,
            decreases len - k,
        {
            data.push(value);
            k = k + 1;
        }
        let r = Mat { nrows, ncols, data };
        assert forall|i: int, j: int| 0 <= i < nrows && 0 <= j < ncols implies #[trigger] r.at(i, j) == value by {
            lemma_offset(nrows as int, ncols as int, i, j);
        }
        r
    }

    /// A matrix from its entries listed column after column.
    pub fn from_column_major(nrows: usize, ncols: usize, data: Vec<T>) -> (r: Self)
        requires
            data.len() == nrows * ncols,
        ensures
            r.rows() == nrows,
            r.cols() == ncols,
            forall|i: int, j: int| 0 <= i < nrows && 0 <= j < ncols ==> #[trigger] r.at(i, j) == data@[j * nrows + i],
    {
        Mat { nrows, ncols, data }
    }

    /// Entry `(i, j)`.
    pub fn read(&self, i: usize, j: usize) -> (r: T)
        requires
            i < self.rows(),
            j < self.cols(),
        ensures
            r == self.at(i as int, j as int),
    {
        proof {
            use_type_invariant(self);
            lemma_offset(self.nrows as int, self.ncols as int, i as int, j as int);
        }
        self.data[j * self.nrows + i]
    }

    /// Sets entry `(i, j)` to `value` and leaves the others as they were.
    pub fn write(&mut self, i: usize, j: usize, value: T)
        requires
            i < old(self).rows(),
            j < old(self).cols(),
        ensures
            final(self).rows() == old(self).rows(),
            final(self).cols() == old(self).cols(),
            final(self).at(i as int, j as int) == value,
            forall|a: int, b: int|
                0 <= a < old(self).rows() && 0 <= b < old(self).cols() && (a != i || b != j)
                    ==> #[trigger] final(self).at(a, b) == old(self).at(a, b),
        no_unwind
    {
        proof {
            use_type_invariant(&*self);
            lemma_offset(self.nrows as int, self.ncols as int, i as int, j as int);
        }
        let k = j * self.nrows + i;
        self.data[k] = value;
        proof {
            assert forall|a: int, b: int|
                0 <= a < old(self).rows() && 0 <= b < old(self).cols() && (a != i || b != j)
                    implies #[trigger] self.at(a, b) == old(self).at(a, b) by {
                lemma_offset_distinct(self.nrows as int, i as int, j as int, a, b);
                lemma_offset(self.nrows as int, self.ncols as int, a, b);
            }
        }
    }
}

impl<T: Copy> Mat<T> {
    /// An owned copy.
    pub fn to_owned(&self) -> (r: Self)
        ensures
            r.rows() == self.rows(),
            r.cols() == self.cols(),
            forall|i: int, j: int| 0 <= i < self.rows() && 0 <= j < self.cols() ==> #[trigger] r.at(i, j) == self.at(i, j),
    {
        self.leading_rows(self.nrows)
    }

    /// The first `n` rows.
    pub fn leading_rows(&self, n: usize) -> (r: Self)
        requires
            n <= self.rows(),
        ensures
            r.rows() == n,
            r.cols() == self.cols(),
            forall|i: int, j: int| 0 <= i < n && 0 <= j < self.cols() ==> #[trigger] r.at(i, j) == self.at(i, j),
    {
        let (m, k) = self.shape();
        if n == 0 || k == 0 {
            proof {
                assert(n * k == 0) by (nonlinear_arith)
                    requires
                        n == 0 || k == 0,
                ;
            }
            return Mat::from_column_major(n, k, Vec::new());
        }
        proof {
            assert(n * k <= m * k) by (nonlinear_arith)
                requires
                    n <= m,
            ;
        }
        let mut r = Mat::filled(n, k, self.read(0, 0));
        let mut j: usize = 0;
        while j < k
            invariant
                j <= k,
                k == self.cols(),
                n <= self.rows(),
                r.rows() == n,
                r.cols() == k,
                forall|p: int, q: int| 0 <= p < n && 0 <= q < j ==> #[trigger] r.at(p, q) == self.at(p, q),
            decreases k - j,
        {
            let mut i: usize = 0;
            while i < n
                invariant
                    i <= n,
                    j < k,
                    k == self.cols(),
                    n <= self.rows(),
                    r.rows() == n,
                    r.cols() == k,
                    forall|p: int, q: int| 0 <= p < n && 0 <= q < j ==> #[trigger] r.at(p, q) == self.at(p, q),
                    forall|p: int| 0 <= p < i ==> #[trigger] r.at(p, j as int) == self.at(p, j as int),
                decreases n - i,
            {
                r.write(i, j, self.read(i, j));
                i = i + 1;
            }
            j = j + 1;
        }
        r
    }
}

impl<T: ComplexField> Mat<T> {
    /// The `nrows × ncols` zero matrix.
    pub fn zeros(nrows: usize, ncols: usize) -> (r: Self)
        requires
            nrows * ncols <= usize::MAX,
        ensures
            r.rows() == nrows,
            r.cols() == ncols,
            forall|i: int, j: int| 0 <= i < nrows && 0 <= j < ncols ==> #[trigger] r.at(i, j) == T::zero_spec(),
    {
        Self::filled(nrows, ncols, T::zero())
    }

    /// The `n × n` identity matrix.
    pub fn identity(n: usize) -> (r: Self)
        requires
            n * n <= usize::MAX,
        ensures
            r.rows() == n,
            r.cols() == n,
            forall|i: int, j: int| 0 <= i < n && 0 <= j < n ==> #[trigger] r.at(i, j) == if i == j {
                T::one_spec()
            } else {
                T::zero_spec()
            },
    {
        let mut r = Self::zeros(n, n);
        let mut k: usize = 0;
        while k < n
            invariant
                k <= n,
                r.rows() == n,
                r.cols() == n,
                forall|i: int, j: int| 0 <= i < n && 0 <= j < n ==> #[trigger] r.at(i, j) == if i == j && i < k {
                    T::one_spec()
                } else {
                    T::zero_spec()
                },
            decreases n - k,
        {
            r.write(k, k, T::one());
            k = k + 1;
        }
        r
    }
}

} // verus!
