//! Forward and back substitution with a triangular operand.
use vstd::prelude::*;

use crate::mat::Mat;
use crate::product::{lemma_sum_congruent, op_cols, op_rows, sum_of_products};
use crate::scalar::ComplexField;
use crate::solvers::Conj;

verus! {

/// Column `j` of `m`.
pub open spec fn column<T>(m: &Mat<T>, j: int) -> Seq<T> {
    Seq::new(m.rows(), |i: int| m.at(i, j))
}

/// Entry `(i, j)` of the operand made of the columns of `a` from `off` on:
/// transposed when `ta`, conjugated by `ca`.
pub open spec fn op_at_off<T: ComplexField>(a: &Mat<T>, off: int, ta: bool, ca: Conj, i: int, j: int) -> T {
    ca.apply(if ta { a.at(j, off + i) } else { a.at(i, off + j) })
}

/// The operand of `op_at_off` is an `n × n` block inside `a`.
pub open spec fn fits<T>(a: &Mat<T>, off: int, n: int) -> bool {
    &&& 0 <= off
    &&& n <= a.rows()
    &&& off + n <= a.cols()
}

/// One substitution step: `(b − sum)`, divided by `diag` unless the
/// diagonal is an implicit one.
pub open spec fn substitute<T: ComplexField>(b: T, sum: T, diag: T, unit: bool) -> T {
    let rest = b.add_spec(sum.neg_spec());
    if unit {
        rest
    } else {
        rest.mul_spec(diag.recip_spec())
    }
}

/// The first `i` entries of the solution of `op(a)·x = b` by forward
/// substitution, where `op(a)` is `a` transposed when `ta`, conjugated by
/// `ca`, and read as lower triangular: entry `r` is `b[r]` less the sum of
/// `op(a)[r][k]·x[k]` over `k < r`, divided by `op(a)[r][r]` unless `unit`.
pub open spec fn forward_solution<T: ComplexField>(a: &Mat<T>, off: int, ta: bool, ca: Conj, unit: bool, b: Seq<T>, i: int) -> Seq<T>
    decreases i,
{
    if i <= 0 {
        Seq::empty()
    } else {
        let x = forward_solution(a, off, ta, ca, unit, b, i - 1);
        let r = i - 1;
        x.push(
            substitute(
                b[r],
                sum_of_products(|k: int| op_at_off(a, off, ta, ca, r, k), |k: int| x[k], r),
                op_at_off(a, off, ta, ca, r, r),
                unit,
            ),
        )
    }
}

/// The entries `i..n` of the solution of `op(a)·x = b` by back substitution,
/// `op(a)` read as upper triangular: entry `r` is `b[r]` less the sum of
/// `op(a)[r][k]·x[k]` over `r < k < n`, divided by `op(a)[r][r]` unless
/// `unit`. Entry `r` of the solution stands at position `r − i`.
pub open spec fn backward_solution<T: ComplexField>(a: &Mat<T>, off: int, ta: bool, ca: Conj, unit: bool, b: Seq<T>, n: int, i: int) -> Seq<T>
    decreases n - i,
{
    if i >= n {
        Seq::empty()
    } else {
        let x = backward_solution(a, off, ta, ca, unit, b, n, i + 1);
        seq![substitute(
            b[i],
            sum_of_products(|k: int| op_at_off(a, off, ta, ca, i, i + 1 + k), |k: int| x[k], n - i - 1),
            op_at_off(a, off, ta, ca, i, i),
            unit,
        )] + x
    }
}

pub proof fn lemma_forward_len<T: ComplexField>(a: &Mat<T>, off: int, ta: bool, ca: Conj, unit: bool, b: Seq<T>, i: int)
    requires
        0 <= i,
    ensures
        forward_solution(a, off, ta, ca, unit, b, i).len() == i,
    decreases i,
{
    if i > 0 {
        lemma_forward_len(a, off, ta, ca, unit, b, i - 1);
    }
}

pub proof fn lemma_backward_len<T: ComplexField>(a: &Mat<T>, off: int, ta: bool, ca: Conj, unit: bool, b: Seq<T>, n: int, i: int)
    requires
        i <= n,
    ensures
        backward_solution(a, off, ta, ca, unit, b, n, i).len() == n - i,
    decreases n - i,
{
    if i < n {
        lemma_backward_len(a, off, ta, ca, unit, b, n, i + 1);
    }
}

/// Solves `op(a)·x = b` by forward substitution.
pub fn forward_substitute<T: ComplexField>(a: &Mat<T>, off: usize, ta: bool, ca: Conj, unit: bool, b: &Vec<T>) -> (x: Vec<T>)
    requires
        fits(a, off as int, b@.len() as int),
    ensures
        x@ == forward_solution(a, off as int, ta, ca, unit, b@, b@.len() as int),
{
    let n = b.len();
    let mut x: Vec<T> = Vec::with_capacity(n);
    let mut i: usize = 0;
    while i < n
        invariant
            i <= n,
            n == b@.len(),
            fits(a, off as int, n as int),
            x@ == forward_solution(a, off as int, ta, ca, unit, b@, i as int),
        decreases n - i,
    {
        let ghost x0 = x@;
        proof {
            lemma_forward_len(a, off as int, ta, ca, unit, b@, i as int);
        }
        let mut acc = T::zero();
        let mut k: usize = 0;
        while k < i
            invariant
                k <= i,
                i < n,
                fits(a, off as int, n as int),
                x@ == x0,
                x0 == forward_solution(a, off as int, ta, ca, unit, b@, i as int),
                x0.len() == i,
                acc == sum_of_products(|t: int| op_at_off(a, off as int, ta, ca, i as int, t), |t: int| x0[t], k as int),
            decreases i - k,
        {
            let e = op_entry(a, off, ta, ca, i, k);
            acc = acc.plus(&e.times(&x[k]));
            k = k + 1;
        }
        let rest = b[i].plus(&acc.negate());
        let v = if unit {
            rest
        } else {
            rest.times(&op_entry(a, off, ta, ca, i, i).recip())
        };
        x.push(v);
        proof {
            lemma_forward_len(a, off as int, ta, ca, unit, b@, i as int);
        }
        i = i + 1;
    }
    x
}

/// Solves `op(a)·x = b` by back substitution.
pub fn backward_substitute<T: ComplexField>(a: &Mat<T>, off: usize, ta: bool, ca: Conj, unit: bool, b: &Vec<T>) -> (x: Vec<T>)
    requires
        fits(a, off as int, b@.len() as int),
    ensures
        x@ == backward_solution(a, off as int, ta, ca, unit, b@, b@.len() as int, 0),
{
    let n = b.len();
    let mut x: Vec<T> = b.clone();
    let mut i: usize = n;
    while i > 0
        invariant
            i <= n,
            n == b@.len(),
            x@.len() == n,
            fits(a, off as int, n as int),
            x@.subrange(i as int, n as int) == backward_solution(a, off as int, ta, ca, unit, b@, n as int, i as int),
        decreases i,
    {
        i = i - 1;
        let ghost tail = backward_solution(a, off as int, ta, ca, unit, b@, n as int, i + 1);
        proof {
            lemma_backward_len(a, off as int, ta, ca, unit, b@, n as int, i + 1);
        }
        let mut acc = T::zero();
        let mut k: usize = i + 1;
        while k < n
            invariant
                i < k <= n,
                n == b@.len(),
                x@.len() == n,
                fits(a, off as int, n as int),
                tail.len() == n - i - 1,
                x@.subrange(i + 1, n as int) == tail,
                acc == sum_of_products(|t: int| op_at_off(a, off as int, ta, ca, i as int, i + 1 + t), |t: int| tail[t], k - i - 1),
            decreases n - k,
        {
            assert(x@[k as int] == tail[k - i - 1]) by {
                assert(x@.subrange(i + 1, n as int)[k - i - 1] == x@[k as int]);
            }
            let e = op_entry(a, off, ta, ca, i, k);
            acc = acc.plus(&e.times(&x[k]));
            k = k + 1;
        }
        let rest = b[i].plus(&acc.negate());
        let v = if unit {
            rest
        } else {
            rest.times(&op_entry(a, off, ta, ca, i, i).recip())
        };
        let ghost before = x@;
        x.set(i, v);
        proof {
            assert(x@.subrange(i as int, n as int) =~= seq![v] + before.subrange(i + 1, n as int));
        }
    }
    proof {
        assert(x@.subrange(0, n as int) =~= x@);
    }
    x
}

fn op_entry<T: ComplexField>(a: &Mat<T>, off: usize, trans: bool, conj: Conj, i: usize, j: usize) -> (r: T)
    requires
        i < a.rows(),
        j < a.rows(),
        off + i < a.cols(),
        off + j < a.cols(),
    ensures
        r == op_at_off(a, off as int, trans, conj, i as int, j as int),
{
    let ncols = a.ncols();
    assert(off + i < ncols && off + j < ncols);
    let x = if trans {
        a.read(j, off + i)
    } else {
        a.read(i, off + j)
    };
    match conj {
        Conj::Yes => x.conj(),
        Conj::No => x,
    }
}

/// The solution of `op(a)·x = b` by forward substitution when `lower`, by
/// back substitution otherwise.
pub open spec fn triangular_solution<T: ComplexField>(a: &Mat<T>, ta: bool, ca: Conj, unit: bool, lower: bool, b: Seq<T>) -> Seq<T> {
    if lower {
        forward_solution(a, 0, ta, ca, unit, b, b.len() as int)
    } else {
        backward_solution(a, 0, ta, ca, unit, b, b.len() as int, 0)
    }
}

pub proof fn lemma_triangular_len<T: ComplexField>(a: &Mat<T>, ta: bool, ca: Conj, unit: bool, lower: bool, b: Seq<T>)
    ensures
        triangular_solution(a, ta, ca, unit, lower, b).len() == b.len(),
{
    lemma_forward_len(a, 0, ta, ca, unit, b, b.len() as int);
    lemma_backward_len(a, 0, ta, ca, unit, b, b.len() as int, 0);
}

/// The entries of `s` picked in the order that `idx` lists.
pub open spec fn permuted<T>(s: Seq<T>, idx: Seq<usize>) -> Seq<T> {
    Seq::new(idx.len(), |r: int| s[idx[r] as int])
}

/// `s` with entry `r` multiplied by the reciprocal of `d[r]`, conjugated
/// when `conj` says so.
pub open spec fn divided<T: ComplexField>(s: Seq<T>, d: Seq<T>, conj: Conj) -> Seq<T> {
    Seq::new(s.len(), |r: int| s[r].mul_spec(conj.apply(d[r]).recip_spec()))
}

pub(crate) fn read_column<T: ComplexField>(m: &Mat<T>, j: usize) -> (r: Vec<T>)
    requires
        j < m.cols(),
    ensures
        r@ == column(m, j as int),
{
    let n = m.nrows();
    let mut r: Vec<T> = Vec::with_capacity(n);
    let mut i: usize = 0;
    while i < n
        invariant
            i <= n,
            n == m.rows(),
            j < m.cols(),
            r@.len() == i,
            forall|t: int| 0 <= t < i ==> #[trigger] r@[t] == m.at(t, j as int),
        decreases n - i,
    {
        r.push(m.read(i, j));
        i = i + 1;
    }
    assert(r@ =~= column(m, j as int));
    r
}

pub(crate) fn write_column<T: ComplexField>(m: &mut Mat<T>, j: usize, x: &Vec<T>)
    requires
        j < old(m).cols(),
        x@.len() == old(m).rows(),
    ensures
        final(m).rows() == old(m).rows(),
        final(m).cols() == old(m).cols(),
        forall|p: int, q: int|
            0 <= p < old(m).rows() && 0 <= q < old(m).cols() ==> #[trigger] final(m).at(p, q) == if q == j {
                x@[p]
            } else {
                old(m).at(p, q)
            },
{
    let ghost m0 = *m;
    let n = m.nrows();
    let mut i: usize = 0;
    while i < n
        invariant
            i <= n,
            n == m0.rows(),
            j < m0.cols(),
            x@.len() == n,
            m.rows() == m0.rows(),
            m.cols() == m0.cols(),
            forall|p: int, q: int|
                0 <= p < m0.rows() && 0 <= q < m0.cols() ==> #[trigger] m.at(p, q) == if q == j && p < i {
                    x@[p]
                } else {
                    m0.at(p, q)
                },
        decreases n - i,
    {
        m.write(i, j, x[i]);
        i = i + 1;
    }
}

/// Solves `op(a)·X = B` in place, column by column, with `op(a)` read as
/// lower triangular when `lower` and as upper triangular otherwise.
pub fn solve_triangular_in_place<T: ComplexField>(a: &Mat<T>, ta: bool, ca: Conj, unit: bool, lower: bool, rhs: &mut Mat<T>)
    requires
        op_rows(a, ta) == op_cols(a, ta),
        old(rhs).rows() == op_rows(a, ta),
    ensures
        final(rhs).rows() == old(rhs).rows(),
        final(rhs).cols() == old(rhs).cols(),
        forall|i: int, j: int|
            0 <= i < old(rhs).rows() && 0 <= j < old(rhs).cols() ==> #[trigger] final(rhs).at(i, j)
                == triangular_solution(a, ta, ca, unit, lower, column(old(rhs), j))[i],
{
    let ghost r0 = *rhs;
    let (n, k) = rhs.shape();
    let mut j: usize = 0;
    while j < k
        invariant
            j <= k,
            n == r0.rows(),
            k == r0.cols(),
            op_rows(a, ta) == n,
            op_cols(a, ta) == n,
            rhs.rows() == n,
            rhs.cols() == k,
            forall|p: int, q: int|
                0 <= p < n && 0 <= q < k ==> #[trigger] rhs.at(p, q) == if q < j {
                    triangular_solution(a, ta, ca, unit, lower, column(&r0, q))[p]
                } else {
                    r0.at(p, q)
                },
        decreases k - j,
    {
        let b = read_column(rhs, j);
        proof {
            assert(b@ =~= column(&r0, j as int));
            lemma_triangular_len(a, ta, ca, unit, lower, b@);
        }
        let x = if lower {
            forward_substitute(a, 0, ta, ca, unit, &b)
        } else {
            backward_substitute(a, 0, ta, ca, unit, &b)
        };
        write_column(rhs, j, &x);
        j = j + 1;
    }
}

/// Row `i` of the result is row `idx[i]` of `rhs`.
pub fn permute_rows_in_place<T: ComplexField>(rhs: &mut Mat<T>, idx: &[usize])
    requires
        idx@.len() == old(rhs).rows(),
        forall|i: int| 0 <= i < idx@.len() ==> #[trigger] idx@[i] < old(rhs).rows(),
    ensures
        final(rhs).rows() == old(rhs).rows(),
        final(rhs).cols() == old(rhs).cols(),
        forall|i: int, j: int|
            0 <= i < old(rhs).rows() && 0 <= j < old(rhs).cols() ==> #[trigger] final(rhs).at(i, j)
                == permuted(column(old(rhs), j), idx@)[i],
{
    let ghost r0 = *rhs;
    let (n, k) = rhs.shape();
    let mut j: usize = 0;
    while j < k
        invariant
            j <= k,
            n == r0.rows(),
            k == r0.cols(),
            idx@.len() == n,
            forall|i: int| 0 <= i < n ==> #[trigger] idx@[i] < n,
            rhs.rows() == n,
            rhs.cols() == k,
            forall|p: int, q: int|
                0 <= p < n && 0 <= q < k ==> #[trigger] rhs.at(p, q) == if q < j {
                    permuted(column(&r0, q), idx@)[p]
                } else {
                    r0.at(p, q)
                },
        decreases k - j,
    {
        let b = read_column(rhs, j);
        let mut x: Vec<T> = Vec::with_capacity(n);
        let mut i: usize = 0;
        while i < n
            invariant
                i <= n,
                j < k,
                n == r0.rows(),
                idx@.len() == n,
                forall|i: int| 0 <= i < n ==> #[trigger] idx@[i] < n,
                b@ == column(&r0, j as int),
                x@.len() == i,
                forall|t: int| 0 <= t < i ==> #[trigger] x@[t] == permuted(column(&r0, j as int), idx@)[t],
            decreases n - i,
        {
            x.push(b[idx[i]]);
            i = i + 1;
        }
        write_column(rhs, j, &x);
        j = j + 1;
    }
}

/// Row `i` is multiplied by the reciprocal of `d[i]`, conjugated when
/// `conj` says so.
pub fn divide_rows_in_place<T: ComplexField>(rhs: &mut Mat<T>, d: &[T], conj: Conj)
    requires
        d@.len() == old(rhs).rows(),
    ensures
        final(rhs).rows() == old(rhs).rows(),
        final(rhs).cols() == old(rhs).cols(),
        forall|i: int, j: int|
            0 <= i < old(rhs).rows() && 0 <= j < old(rhs).cols() ==> #[trigger] final(rhs).at(i, j)
                == divided(column(old(rhs), j), d@, conj)[i],
{
    let ghost r0 = *rhs;
    let (n, k) = rhs.shape();
    let mut j: usize = 0;
    while j < k
        invariant
            j <= k,
            n == r0.rows(),
            k == r0.cols(),
            d@.len() == n,
            rhs.rows() == n,
            rhs.cols() == k,
            forall|p: int, q: int|
                0 <= p < n && 0 <= q < k ==> #[trigger] rhs.at(p, q) == if q < j {
                    divided(column(&r0, q), d@, conj)[p]
                } else {
                    r0.at(p, q)
                },
        decreases k - j,
    {
        let mut i: usize = 0;
        while i < n
            invariant
                i <= n,
                j < k,
                n == r0.rows(),
                k == r0.cols(),
                d@.len() == n,
                rhs.rows() == n,
                rhs.cols() == k,
                forall|p: int, q: int|
                    0 <= p < n && 0 <= q < k ==> #[trigger] rhs.at(p, q) == if q < j || (q == j && p < i) {
                        divided(column(&r0, q), d@, conj)[p]
                    } else {
                        r0.at(p, q)
                    },
            decreases n - i,
        {
            let dv = match conj {
                Conj::Yes => d[i].conj(),
                Conj::No => d[i],
            };
            let v = rhs.read(i, j).times(&dv.recip());
            rhs.write(i, j, v);
            i = i + 1;
        }
        j = j + 1;
    }
}

/// Column `q` of the `n × n` identity matrix.
pub open spec fn unit_column<T: ComplexField>(n: nat, q: int) -> Seq<T> {
    Seq::new(n, |r: int| if r == q { T::one_spec() } else { T::zero_spec() })
}

/// A column whose entries are those of `s` is `s`.
pub proof fn lemma_column_is<T>(m: &Mat<T>, j: int, s: Seq<T>)
    requires
        s.len() == m.rows(),
        forall|i: int| 0 <= i < m.rows() ==> #[trigger] m.at(i, j) == s[i],
    ensures
        column(m, j) == s,
{
    assert(column(m, j) =~= s);
}

/// The place of index `k` in the block diagonal factor of a Bunch–Kaufman
/// factorization with sub-diagonal `s`: `0` for a 1×1 block, `1` for the
/// first row of a 2×2 block, `2` for its second row. A 2×2 block starts at
/// each non-zero sub-diagonal entry that does not close the previous block.
pub open spec fn block_role<T: ComplexField>(s: Seq<T>, k: int) -> int
    decreases k,
{
    if k < 0 {
        0
    } else if k > 0 && block_role(s, k - 1) == 1 {
        2
    } else if s[k] == T::zero_spec() {
        0
    } else {
        1
    }
}

/// `s` is the sub-diagonal of a block diagonal matrix of 1×1 and 2×2
/// blocks: non-zero only where a 2×2 block starts, and no block starts on
/// the last row.
pub open spec fn is_block_subdiagonal<T: ComplexField>(s: Seq<T>) -> bool {
    &&& (s.len() == 0 || block_role(s, s.len() - 1) != 1)
    &&& forall|k: int| 0 <= k < s.len() && block_role(s, k) != 1 ==> #[trigger] s[k] == T::zero_spec()
}

/// Entry `r` of `B⁻¹·y` for the block diagonal `B` with diagonal `d` and
/// sub-diagonal `s` (its conjugate above), conjugated by `c`: a 1×1 block
/// divides, a 2×2 block applies its adjugate divided by its determinant.
pub open spec fn block_solved_at<T: ComplexField>(y: Seq<T>, d: Seq<T>, s: Seq<T>, c: Conj, r: int) -> T {
    let role = block_role(s, r);
    if role == 0 {
        y[r].mul_spec(c.apply(d[r]).recip_spec())
    } else {
        let k = if role == 1 { r } else { r - 1 };
        let m00 = c.apply(d[k]);
        let m01 = c.apply(s[k].conj_spec());
        let m10 = c.apply(s[k]);
        let m11 = c.apply(d[k + 1]);
        let det = m00.mul_spec(m11).add_spec(m01.mul_spec(m10).neg_spec());
        if role == 1 {
            m11.mul_spec(y[k]).add_spec(m01.mul_spec(y[k + 1]).neg_spec()).mul_spec(det.recip_spec())
        } else {
            m00.mul_spec(y[k + 1]).add_spec(m10.mul_spec(y[k]).neg_spec()).mul_spec(det.recip_spec())
        }
    }
}

pub open spec fn block_solved<T: ComplexField>(y: Seq<T>, d: Seq<T>, s: Seq<T>, c: Conj) -> Seq<T> {
    Seq::new(y.len(), |r: int| block_solved_at(y, d, s, c, r))
}

fn apply_conj_to<T: ComplexField>(c: Conj, x: T) -> (r: T)
    ensures
        r == c.apply(x),
{
    match c {
        Conj::Yes => x.conj(),
        Conj::No => x,
    }
}

fn block_solve_column<T: ComplexField>(y: &Vec<T>, d: &[T], s: &[T], c: Conj) -> (x: Vec<T>)
    requires
        d@.len() == y@.len(),
        s@.len() == y@.len(),
        y@.len() == 0 || block_role(s@, y@.len() - 1) != 1,
    ensures
        x@ == block_solved(y@, d@, s@, c),
{
    let n = y.len();
    let mut x: Vec<T> = Vec::with_capacity(n);
    let mut k: usize = 0;
    while k < n
        invariant
            k <= n,
            n == y@.len(),
            d@.len() == n,
            s@.len() == n,
            n == 0 || block_role(s@, n - 1) != 1,
            k == 0 || block_role(s@, k - 1) != 1,
            x@.len() == k,
            forall|t: int| 0 <= t < k ==> #[trigger] x@[t] == block_solved_at(y@, d@, s@, c, t),
        decreases n - k,
    {
        if s[k].is_zero() {
            proof {
                assert(block_role(s@, k as int) == 0);
            }
            let v = y[k].times(&apply_conj_to(c, d[k]).recip());
            x.push(v);
            k = k + 1;
        } else {
            proof {
                assert(block_role(s@, k as int) == 1);
                assert(k + 1 < n) by {
                    if k + 1 >= n {
                        assert(k == n - 1);
                    }
                }
                assert(block_role(s@, k + 1) == 2);
            }
            let m00 = apply_conj_to(c, d[k]);
            let m01 = apply_conj_to(c, s[k].conj());
            let m10 = apply_conj_to(c, s[k]);
            let m11 = apply_conj_to(c, d[k + 1]);
            let det = m00.times(&m11).plus(&m01.times(&m10).negate());
            let inv = det.recip();
            let first = m11.times(&y[k]).plus(&m01.times(&y[k + 1]).negate()).times(&inv);
            let second = m00.times(&y[k + 1]).plus(&m10.times(&y[k]).negate()).times(&inv);
            x.push(first);
            x.push(second);
            k = k + 2;
        }
    }
    assert(x@ =~= block_solved(y@, d@, s@, c));
    x
}

/// Replaces each column `y` of `rhs` by `B⁻¹·y` for the block diagonal `B`
/// with diagonal `d` and sub-diagonal `s`, conjugated by `c`.
pub fn block_divide_in_place<T: ComplexField>(rhs: &mut Mat<T>, d: &[T], s: &[T], c: Conj)
    requires
        d@.len() == old(rhs).rows(),
        s@.len() == old(rhs).rows(),
        old(rhs).rows() == 0 || block_role(s@, old(rhs).rows() - 1) != 1,
    ensures
        final(rhs).rows() == old(rhs).rows(),
        final(rhs).cols() == old(rhs).cols(),
        forall|i: int, j: int|
            0 <= i < old(rhs).rows() && 0 <= j < old(rhs).cols() ==> #[trigger] final(rhs).at(i, j)
                == block_solved(column(old(rhs), j), d@, s@, c)[i],
{
    let ghost r0 = *rhs;
    let (n, k) = rhs.shape();
    let mut j: usize = 0;
    while j < k
        invariant
            j <= k,
            n == r0.rows(),
            k == r0.cols(),
            d@.len() == n,
            s@.len() == n,
            n == 0 || block_role(s@, n - 1) != 1,
            rhs.rows() == n,
            rhs.cols() == k,
            forall|p: int, q: int|
                0 <= p < n && 0 <= q < k ==> #[trigger] rhs.at(p, q) == if q < j {
                    block_solved(column(&r0, q), d@, s@, c)[p]
                } else {
                    r0.at(p, q)
                },
        decreases k - j,
    {
        let y = read_column(rhs, j);
        proof {
            assert(y@ =~= column(&r0, j as int));
        }
        let x = block_solve_column(&y, d, s, c);
        write_column(rhs, j, &x);
        j = j + 1;
    }
}

/// Overwrites the leading rows of `rhs` with `x`.
pub fn overwrite_leading_rows<T: ComplexField>(rhs: &mut Mat<T>, x: &Mat<T>)
    requires
        x.rows() <= old(rhs).rows(),
        x.cols() == old(rhs).cols(),
    ensures
        final(rhs).rows() == old(rhs).rows(),
        final(rhs).cols() == old(rhs).cols(),
        forall|i: int, j: int|
            0 <= i < old(rhs).rows() && 0 <= j < old(rhs).cols() ==> #[trigger] final(rhs).at(i, j) == if i < x.rows() {
                x.at(i, j)
            } else {
                old(rhs).at(i, j)
            },
{
    let ghost r0 = *rhs;
    let (m, k) = x.shape();
    let mut j: usize = 0;
    while j < k
        invariant
            j <= k,
            m == x.rows(),
            k == x.cols(),
            m <= r0.rows(),
            k == r0.cols(),
            rhs.rows() == r0.rows(),
            rhs.cols() == r0.cols(),
            forall|p: int, q: int|
                0 <= p < r0.rows() && 0 <= q < k ==> #[trigger] rhs.at(p, q) == if p < m && q < j {
                    x.at(p, q)
                } else {
                    r0.at(p, q)
                },
        decreases k - j,
    {
        let mut i: usize = 0;
        while i < m
            invariant
                j < k,
                i <= m,
                m == x.rows(),
                k == x.cols(),
                m <= r0.rows(),
                k == r0.cols(),
                rhs.rows() == r0.rows(),
                rhs.cols() == r0.cols(),
                forall|p: int, q: int|
                    0 <= p < r0.rows() && 0 <= q < k ==> #[trigger] rhs.at(p, q) == if p < m && (q < j || (q == j && p < i)) {
                        x.at(p, q)
                    } else {
                        r0.at(p, q)
                    },
            decreases m - i,
        {
            rhs.write(i, j, x.read(i, j));
            i = i + 1;
        }
        j = j + 1;
    }
}

/// The entries of a forward solution below `i` do not change when more of
/// it is computed.
pub proof fn lemma_forward_prefix<T: ComplexField>(a: &Mat<T>, off: int, ta: bool, ca: Conj, unit: bool, b: Seq<T>, i: int, j: int)
    requires
        0 <= i <= j,
    ensures
        forall|k: int| 0 <= k < i ==> #[trigger] forward_solution(a, off, ta, ca, unit, b, j)[k]
            == forward_solution(a, off, ta, ca, unit, b, i)[k],
    decreases j - i,
{
    if i < j {
        lemma_forward_prefix(a, off, ta, ca, unit, b, i, j - 1);
        lemma_forward_len(a, off, ta, ca, unit, b, j - 1);
    }
}

/// Entry `k ≥ i` of a back substitution started at `0` is entry `k − i` of
/// the one started at `i`.
pub proof fn lemma_backward_suffix<T: ComplexField>(a: &Mat<T>, off: int, ta: bool, ca: Conj, unit: bool, b: Seq<T>, n: int, i: int)
    requires
        0 <= i <= n,
    ensures
        forall|k: int| i <= k < n ==> #[trigger] backward_solution(a, off, ta, ca, unit, b, n, 0)[k]
            == backward_solution(a, off, ta, ca, unit, b, n, i)[k - i],
    decreases i,
{
    if i > 0 {
        lemma_backward_suffix(a, off, ta, ca, unit, b, n, i - 1);
        lemma_backward_len(a, off, ta, ca, unit, b, n, i);
        assert forall|k: int| i <= k < n implies #[trigger] backward_solution(a, off, ta, ca, unit, b, n, 0)[k]
            == backward_solution(a, off, ta, ca, unit, b, n, i)[k - i] by {
            assert(backward_solution(a, off, ta, ca, unit, b, n, i - 1)[k - (i - 1)]
                == backward_solution(a, off, ta, ca, unit, b, n, i)[k - i]);
        }
    }
}

/// Terms whose first factor is zero add nothing to a sum of products.
proof fn lemma_sum_zero_terms<T: ComplexField>(f: spec_fn(int) -> T, g: spec_fn(int) -> T, lo: int, m: int)
    requires
        0 <= lo <= m,
        forall|k: int| lo <= k < m ==> #[trigger] f(k) == T::zero_spec(),
    ensures
        sum_of_products(f, g, m) == sum_of_products(f, g, lo),
    decreases m - lo,
{
    if lo < m {
        lemma_sum_zero_terms(f, g, lo, m - 1);
        T::lemma_mul_unit_zero(g(m - 1));
        T::lemma_add_laws(sum_of_products(f, g, m - 1), T::zero_spec(), T::zero_spec());
    }
}

/// `s + (b − s) = b`.
proof fn lemma_add_sub_cancel<T: ComplexField>(s: T, b: T)
    ensures
        s.add_spec(b.add_spec(s.neg_spec())) == b,
{
    T::lemma_add_laws(s, b.add_spec(s.neg_spec()), T::zero_spec());
    T::lemma_add_laws(b, s.neg_spec(), s);
    T::lemma_add_laws(s.neg_spec(), s, T::zero_spec());
    T::lemma_add_laws(s, s.neg_spec(), T::zero_spec());
    T::lemma_add_laws(b, T::zero_spec(), T::zero_spec());
}

/// The diagonal of `op(a)` restricted to `n × n` can be divided by: it is
/// all ones when `unit`, and otherwise each entry `d` undoes multiplication
/// by its reciprocal, `d·(y·d⁻¹) = y`.
pub open spec fn has_invertible_diagonal<T: ComplexField>(a: &Mat<T>, ta: bool, ca: Conj, unit: bool, n: int) -> bool {
    if unit {
        forall|k: int| 0 <= k < n ==> #[trigger] op_at_off(a, 0, ta, ca, k, k) == T::one_spec()
    } else {
        forall|k: int, y: T| 0 <= k < n ==> #[trigger] op_at_off(a, 0, ta, ca, k, k).mul_spec(
            y.mul_spec(op_at_off(a, 0, ta, ca, k, k).recip_spec()),
        ) == y
    }
}

/// `op(a)` restricted to `n × n` has zeros above its diagonal.
pub open spec fn is_lower_op<T: ComplexField>(a: &Mat<T>, ta: bool, ca: Conj, n: int) -> bool {
    forall|r: int, k: int| 0 <= r < k < n ==> #[trigger] op_at_off(a, 0, ta, ca, r, k) == T::zero_spec()
}

/// `op(a)` restricted to `n × n` has zeros below its diagonal.
pub open spec fn is_upper_op<T: ComplexField>(a: &Mat<T>, ta: bool, ca: Conj, n: int) -> bool {
    forall|r: int, k: int| 0 <= k < r < n ==> #[trigger] op_at_off(a, 0, ta, ca, r, k) == T::zero_spec()
}

/// The diagonal term of a substitution step gives back what the step
/// divided: `d·substitute(b, s, d) = b − s`.
proof fn lemma_diagonal_term<T: ComplexField>(a: &Mat<T>, ta: bool, ca: Conj, unit: bool, n: int, i: int, b: T, s: T)
    requires
        has_invertible_diagonal(a, ta, ca, unit, n),
        0 <= i < n,
    ensures
        op_at_off(a, 0, ta, ca, i, i).mul_spec(substitute(b, s, op_at_off(a, 0, ta, ca, i, i), unit)) == b.add_spec(s.neg_spec()),
{
    if unit {
        T::lemma_mul_unit_zero(b.add_spec(s.neg_spec()));
    } else {
        let d = op_at_off(a, 0, ta, ca, i, i);
        assert(d.mul_spec(b.add_spec(s.neg_spec()).mul_spec(d.recip_spec())) == b.add_spec(s.neg_spec()));
    }
}

/// Forward substitution with a lower-triangular operand whose diagonal can
/// be divided by solves the system exactly: row `i` of `op(a)·x` is `b[i]`.
pub proof fn lemma_forward_solves<T: ComplexField>(a: &Mat<T>, ta: bool, ca: Conj, unit: bool, b: Seq<T>, i: int)
    requires
        is_lower_op(a, ta, ca, b.len() as int),
        has_invertible_diagonal(a, ta, ca, unit, b.len() as int),
        0 <= i < b.len(),
    ensures
        sum_of_products(
            |k: int| op_at_off(a, 0, ta, ca, i, k),
            |k: int| triangular_solution(a, ta, ca, unit, true, b)[k],
            b.len() as int,
        ) == b[i],
{
    let n = b.len() as int;
    let x = forward_solution(a, 0, ta, ca, unit, b, n);
    let xi = forward_solution(a, 0, ta, ca, unit, b, i);
    let f = |k: int| op_at_off(a, 0, ta, ca, i, k);
    let g = |k: int| x[k];
    let s = sum_of_products(f, |k: int| xi[k], i);
    lemma_forward_prefix(a, 0, ta, ca, unit, b, i, n);
    lemma_forward_prefix(a, 0, ta, ca, unit, b, i + 1, n);
    lemma_forward_len(a, 0, ta, ca, unit, b, i);
    lemma_sum_congruent(f, g, f, |k: int| xi[k], i);
    assert(x[i] == forward_solution(a, 0, ta, ca, unit, b, i + 1)[i]);
    assert(x[i] == substitute(b[i], s, op_at_off(a, 0, ta, ca, i, i), unit));
    lemma_diagonal_term(a, ta, ca, unit, n, i, b[i], s);
    lemma_add_sub_cancel(s, b[i]);
    assert(sum_of_products(f, g, i + 1) == b[i]);
    lemma_sum_zero_terms(f, g, i + 1, n);
    assert(g == (|k: int| triangular_solution(a, ta, ca, unit, true, b)[k]));
}

/// Back substitution with an upper-triangular operand whose diagonal can be
/// divided by solves the system exactly: row `i` of `op(a)·x` is `b[i]`.
pub proof fn lemma_backward_solves<T: ComplexField>(a: &Mat<T>, ta: bool, ca: Conj, unit: bool, b: Seq<T>, i: int)
    requires
        is_upper_op(a, ta, ca, b.len() as int),
        has_invertible_diagonal(a, ta, ca, unit, b.len() as int),
        0 <= i < b.len(),
    ensures
        sum_of_products(
            |k: int| op_at_off(a, 0, ta, ca, i, k),
            |k: int| triangular_solution(a, ta, ca, unit, false, b)[k],
            b.len() as int,
        ) == b[i],
{
    let n = b.len() as int;
    let x = backward_solution(a, 0, ta, ca, unit, b, n, 0);
    let tail = backward_solution(a, 0, ta, ca, unit, b, n, i + 1);
    let f = |k: int| op_at_off(a, 0, ta, ca, i, k);
    let g = |k: int| x[k];
    let fs = |t: int| f(i + 1 + t);
    let gs = |t: int| g(i + 1 + t);
    let t_sum = sum_of_products(|k: int| op_at_off(a, 0, ta, ca, i, i + 1 + k), |k: int| tail[k], n - i - 1);
    lemma_backward_suffix(a, 0, ta, ca, unit, b, n, i);
    lemma_backward_suffix(a, 0, ta, ca, unit, b, n, i + 1);
    lemma_backward_len(a, 0, ta, ca, unit, b, n, i + 1);
    assert(x[i] == backward_solution(a, 0, ta, ca, unit, b, n, i)[0]);
    assert(x[i] == substitute(b[i], t_sum, op_at_off(a, 0, ta, ca, i, i), unit));
    let d_term = b[i].add_spec(t_sum.neg_spec());
    // The terms before `i` vanish, and the diagonal term is `b[i] − t_sum`.
    lemma_sum_zero_terms(f, g, 0, i);
    lemma_diagonal_term(a, ta, ca, unit, n, i, b[i], t_sum);
    T::lemma_add_laws(T::zero_spec(), d_term, T::zero_spec());
    T::lemma_add_laws(d_term, T::zero_spec(), T::zero_spec());
    assert(sum_of_products(f, g, i + 1) == d_term);
    // Past the diagonal, the sum adds the shifted sum.
    lemma_sum_shift(f, g, i, n);
    lemma_sum_congruent(fs, gs, |k: int| op_at_off(a, 0, ta, ca, i, i + 1 + k), |k: int| tail[k], n - i - 1);
    T::lemma_add_laws(d_term, t_sum, T::zero_spec());
    lemma_add_sub_cancel(t_sum, b[i]);
    assert(g == (|k: int| triangular_solution(a, ta, ca, unit, false, b)[k]));
}

/// `Σ_{k<m} f(k)·g(k) = (Σ_{k≤i} f(k)·g(k)) + Σ_{i<k<m} f(k)·g(k)`.
proof fn lemma_sum_shift<T: ComplexField>(f: spec_fn(int) -> T, g: spec_fn(int) -> T, i: int, m: int)
    requires
        0 <= i < m,
    ensures
        sum_of_products(f, g, m) == sum_of_products(f, g, i + 1).add_spec(
            sum_of_products(|t: int| f(i + 1 + t), |t: int| g(i + 1 + t), m - i - 1),
        ),
    decreases m - i,
{
    let fs = |t: int| f(i + 1 + t);
    let gs = |t: int| g(i + 1 + t);
    if m == i + 1 {
        T::lemma_add_laws(sum_of_products(f, g, i + 1), T::zero_spec(), T::zero_spec());
    } else {
        lemma_sum_shift(f, g, i, m - 1);
        T::lemma_add_laws(
            sum_of_products(f, g, i + 1),
            sum_of_products(fs, gs, m - i - 2),
            f(m - 1).mul_spec(g(m - 1)),
        );
        assert(fs(m - i - 2) == f(m - 1));
        assert(gs(m - i - 2) == g(m - 1));
    }
}

} // verus!
