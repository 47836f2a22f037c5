//! Implicit unitary factors stored as block Householder reflectors.
//!
//! `basis` holds the Householder vectors below an implicit unit diagonal
//! (zeros above), and `coeff` the upper-triangular factor `T` of each block:
//! the block of `w` vectors starting at column `c0` is the reflector
//! `H = I − V·T⁻¹·Vᴴ`, with `V` those columns of `basis` and `T` the leading
//! `w × w` block of the same columns of `coeff`. Blocks start every
//! `coeff.rows()` columns, and `Q = H₀·H₁·…`.
use vstd::prelude::*;

use crate::mat::Mat;
use crate::product::sum_of_products;
use crate::scalar::ComplexField;
use crate::solvers::Conj;
use crate::substitution::{
    backward_solution, backward_substitute, column, fits, forward_solution, forward_substitute,
    lemma_backward_len, lemma_column_is, lemma_forward_len, read_column, write_column,
};

verus! {

/// `Vᴴ·b` for the block of `w` vectors at column `c0`, with `V` conjugated
/// by `conj`.
pub open spec fn reflector_coeffs<T: ComplexField>(basis: &Mat<T>, c0: int, w: int, conj: Conj, b: Seq<T>) -> Seq<T> {
    Seq::new(w as nat, |t: int| sum_of_products(|s: int| conj.flipped().apply(basis.at(s, c0 + t)), |s: int| b[s], b.len() as int))
}

/// `H·b`, or `Hᴴ·b` when `adjoint`, for the block of `w` reflectors at
/// column `c0`, conjugated by `conj`.
pub open spec fn block_reflect<T: ComplexField>(
    basis: &Mat<T>,
    coeff: &Mat<T>,
    c0: int,
    w: int,
    conj: Conj,
    adjoint: bool,
    b: Seq<T>,
) -> Seq<T> {
    let w0 = reflector_coeffs(basis, c0, w, conj, b);
    let w1 = if adjoint {
        forward_solution(coeff, c0, true, conj.flipped(), false, w0, w)
    } else {
        backward_solution(coeff, c0, false, conj, false, w0, w, 0)
    };
    Seq::new(b.len(), |s: int| b[s].add_spec(sum_of_products(|t: int| conj.apply(basis.at(s, c0 + t)), |t: int| w1[t], w).neg_spec()))
}

/// The width of the block starting at column `c0`.
pub open spec fn block_width(bs: int, size: int, c0: int) -> int {
    if c0 + bs <= size {
        bs
    } else {
        size - c0
    }
}

/// `H_k·H_{k+1}·…·b` for the blocks from column `c0` on: the last block acts
/// first.
pub open spec fn apply_q<T: ComplexField>(basis: &Mat<T>, coeff: &Mat<T>, conj: Conj, c0: int, b: Seq<T>) -> Seq<T>
    decreases (if c0 < coeff.cols() { coeff.cols() - c0 } else { 0 }),
{
    let bs = coeff.rows() as int;
    let size = coeff.cols() as int;
    if bs <= 0 || c0 >= size {
        b
    } else {
        block_reflect(basis, coeff, c0, block_width(bs, size, c0), conj, false, apply_q(basis, coeff, conj, c0 + bs, b))
    }
}

/// `…·H_{k+1}ᴴ·H_kᴴ·b` for the blocks from column `c0` on: the first block
/// acts first.
pub open spec fn apply_qh<T: ComplexField>(basis: &Mat<T>, coeff: &Mat<T>, conj: Conj, c0: int, b: Seq<T>) -> Seq<T>
    decreases (if c0 < coeff.cols() { coeff.cols() - c0 } else { 0 }),
{
    let bs = coeff.rows() as int;
    let size = coeff.cols() as int;
    if bs <= 0 || c0 >= size {
        b
    } else {
        apply_qh(basis, coeff, conj, c0 + bs, block_reflect(basis, coeff, c0, block_width(bs, size, c0), conj, true, b))
    }
}

pub proof fn lemma_apply_q_len<T: ComplexField>(basis: &Mat<T>, coeff: &Mat<T>, conj: Conj, c0: int, b: Seq<T>)
    ensures
        apply_q(basis, coeff, conj, c0, b).len() == b.len(),
        apply_qh(basis, coeff, conj, c0, b).len() == b.len(),
    decreases (if c0 < coeff.cols() { coeff.cols() - c0 } else { 0 }),
{
    let bs = coeff.rows() as int;
    let size = coeff.cols() as int;
    if !(bs <= 0 || c0 >= size) {
        lemma_apply_q_len(basis, coeff, conj, c0 + bs, b);
        let w = block_width(bs, size, c0);
        lemma_apply_q_len(basis, coeff, conj, c0 + bs, block_reflect(basis, coeff, c0, w, conj, true, b));
    }
}

/// The Householder storage is consistent: as many vectors as coefficient
/// columns, at least one row of coefficients, and vectors as long as `b`.
pub open spec fn householder_shapes<T>(basis: &Mat<T>, coeff: &Mat<T>) -> bool {
    &&& basis.cols() == coeff.cols()
    &&& coeff.rows() >= 1
    &&& basis.cols() <= basis.rows()
}

fn dot_column<T: ComplexField>(basis: &Mat<T>, c: usize, conj: Conj, b: &Vec<T>) -> (r: T)
    requires
        c < basis.cols(),
        b@.len() == basis.rows(),
    ensures
        r == sum_of_products(|s: int| conj.apply(basis.at(s, c as int)), |s: int| b@[s], b@.len() as int),
{
    let m = b.len();
    let ghost f = |s: int| conj.apply(basis.at(s, c as int));
    let ghost g = |s: int| b@[s];
    let mut acc = T::zero();
    let mut s: usize = 0;
    while s < m
        invariant
            s <= m,
            m == b@.len(),
            m == basis.rows(),
            c < basis.cols(),
            f == (|s: int| conj.apply(basis.at(s, c as int))),
            g == (|s: int| b@[s]),
            acc == sum_of_products(f, g, s as int),
        decreases m - s,
    {
        let v = basis.read(s, c);
        let v = match conj {
            Conj::Yes => v.conj(),
            Conj::No => v,
        };
        acc = acc.plus(&v.times(&b[s]));
        s = s + 1;
    }
    acc
}

/// `H·b`, or `Hᴴ·b`, for one block.
fn reflect_column<T: ComplexField>(
    basis: &Mat<T>,
    coeff: &Mat<T>,
    c0: usize,
    w: usize,
    conj: Conj,
    adjoint: bool,
    b: &Vec<T>,
) -> (r: Vec<T>)
    requires
        c0 + w <= basis.cols(),
        b@.len() == basis.rows(),
        fits(coeff, c0 as int, w as int),
    ensures
        r@ == block_reflect(basis, coeff, c0 as int, w as int, conj, adjoint, b@),
{
    let ncols = basis.ncols();
    let m = b.len();
    let flipped = conj.compose(Conj::Yes);
    let mut w0: Vec<T> = Vec::with_capacity(w);
    let mut t: usize = 0;
    while t < w
        invariant
            t <= w,
            c0 + w <= basis.cols(),
            ncols == basis.cols(),
            b@.len() == basis.rows(),
            flipped == conj.flipped(),
            w0@.len() == t,
            forall|k: int| 0 <= k < t ==> #[trigger] w0@[k] == reflector_coeffs(basis, c0 as int, w as int, conj, b@)[k],
        decreases w - t,
    {
        w0.push(dot_column(basis, c0 + t, flipped, b));
        t = t + 1;
    }
    assert(w0@ =~= reflector_coeffs(basis, c0 as int, w as int, conj, b@));
    let w1 = if adjoint {
        forward_substitute(coeff, c0, true, flipped, false, &w0)
    } else {
        backward_substitute(coeff, c0, false, conj, false, &w0)
    };
    proof {
        lemma_forward_len(coeff, c0 as int, true, flipped, false, w0@, w as int);
        lemma_backward_len(coeff, c0 as int, false, conj, false, w0@, w as int, 0);
    }
    let mut r: Vec<T> = Vec::with_capacity(m);
    let mut s: usize = 0;
    while s < m
        invariant
            s <= m,
            m == b@.len(),
            m == basis.rows(),
            c0 + w <= basis.cols(),
            ncols == basis.cols(),
            w1@.len() == w,
            w1@ == (if adjoint {
                forward_solution(coeff, c0 as int, true, conj.flipped(), false, w0@, w as int)
            } else {
                backward_solution(coeff, c0 as int, false, conj, false, w0@, w as int, 0)
            }),
            w0@ == reflector_coeffs(basis, c0 as int, w as int, conj, b@),
            r@.len() == s,
            forall|k: int| 0 <= k < s ==> #[trigger] r@[k] == block_reflect(basis, coeff, c0 as int, w as int, conj, adjoint, b@)[k],
        decreases m - s,
    {
        let ghost f = |t: int| conj.apply(basis.at(s as int, c0 + t));
        let ghost g = |t: int| w1@[t];
        let mut acc = T::zero();
        let mut t: usize = 0;
        while t < w
            invariant
                t <= w,
                s < m,
                m == basis.rows(),
                c0 + w <= basis.cols(),
                ncols == basis.cols(),
                w1@.len() == w,
                f == (|t: int| conj.apply(basis.at(s as int, c0 + t))),
                g == (|t: int| w1@[t]),
                acc == sum_of_products(f, g, t as int),
            decreases w - t,
        {
            let v = basis.read(s, c0 + t);
            let v = match conj {
                Conj::Yes => v.conj(),
                Conj::No => v,
            };
            acc = acc.plus(&v.times(&w1[t]));
            t = t + 1;
        }
        r.push(b[s].plus(&acc.negate()));
        s = s + 1;
    }
    assert(r@ =~= block_reflect(basis, coeff, c0 as int, w as int, conj, adjoint, b@));
    r
}

/// The columns at which the blocks start: `0, bs, 2·bs, …` below `size`,
/// and the first multiple of `bs` past them.
fn block_starts<T>(coeff: &Mat<T>) -> (r: (Vec<usize>, usize))
    requires
        coeff.rows() >= 1,
    ensures
        r.0@.len() > 0 ==> r.0@[0] == 0,
        r.0@.len() == 0 ==> r.1 == 0,
        forall|i: int| 0 <= i < r.0@.len() ==> #[trigger] r.0@[i] < coeff.cols(),
        forall|i: int| 0 <= i && i + 1 < r.0@.len() ==> #[trigger] r.0@[i + 1] == r.0@[i] + coeff.rows(),
        r.0@.len() > 0 ==> r.1 == r.0@[r.0@.len() - 1] + coeff.rows(),
        r.1 >= coeff.cols(),
{
    let (bs, size) = coeff.shape();
    let mut starts: Vec<usize> = Vec::new();
    let mut c: usize = 0;
    while c < size
        invariant
            bs >= 1,
            bs == coeff.rows(),
            size == coeff.cols(),
            bs * size <= usize::MAX,
            starts@.len() > 0 ==> starts@[0] == 0,
            starts@.len() == 0 ==> c == 0,
            forall|i: int| 0 <= i < starts@.len() ==> #[trigger] starts@[i] < size,
            forall|i: int| 0 <= i && i + 1 < starts@.len() ==> #[trigger] starts@[i + 1] == starts@[i] + bs,
            starts@.len() > 0 ==> c == starts@[starts@.len() - 1] + bs,
        decreases (if c < size { size - c } else { 0 }),
    {
        let ghost before = starts@;
        starts.push(c);
        proof {
            assert forall|i: int| 0 <= i && i + 1 < starts@.len() implies #[trigger] starts@[i + 1] == starts@[i] + bs by {
                if i + 1 < before.len() {
                    assert(starts@[i + 1] == before[i + 1] && starts@[i] == before[i]);
                }
            }
        }
        assert(c + bs <= usize::MAX) by (nonlinear_arith)
            requires
                c < size,
                bs >= 1,
                bs * size <= usize::MAX,
        ;
        c = c + bs;
    }
    (starts, c)
}

/// `Q·b`, or `Qᴴ·b` when `adjoint`, with `Q` conjugated by `conj`.
fn apply_sequence_to_column<T: ComplexField>(basis: &Mat<T>, coeff: &Mat<T>, conj: Conj, adjoint: bool, b: Vec<T>) -> (r: Vec<T>)
    requires
        householder_shapes(basis, coeff),
        b@.len() == basis.rows(),
    ensures
        r@ == if adjoint {
            apply_qh(basis, coeff, conj, 0, b@)
        } else {
            apply_q(basis, coeff, conj, 0, b@)
        },
{
    let (bs, size) = coeff.shape();
    let (starts, end) = block_starts(coeff);
    let count = starts.len();
    let ghost b0 = b@;
    let mut cur = b;
    if adjoint {
        let mut k: usize = 0;
        while k < count
            invariant
                k <= count,
                count == starts@.len(),
                bs == coeff.rows(),
                size == coeff.cols(),
                bs >= 1,
                bs * size <= usize::MAX,
                householder_shapes(basis, coeff),
                cur@.len() == basis.rows(),
                starts@.len() > 0 ==> starts@[0] == 0,
                starts@.len() == 0 ==> end == 0,
                forall|i: int| 0 <= i < starts@.len() ==> #[trigger] starts@[i] < size,
                forall|i: int| 0 <= i && i + 1 < starts@.len() ==> #[trigger] starts@[i + 1] == starts@[i] + bs,
                starts@.len() > 0 ==> end == starts@[starts@.len() - 1] + bs,
                end >= size,
                apply_qh(basis, coeff, conj, 0, b0) == apply_qh(
                    basis,
                    coeff,
                    conj,
                    if k < count { starts@[k as int] as int } else { end as int },
                    cur@,
                ),
            decreases count - k,
        {
            let c0 = starts[k];
            assert(c0 + bs <= usize::MAX) by (nonlinear_arith)
                requires
                    c0 < size,
                    bs >= 1,
                    bs * size <= usize::MAX,
            ;
            let w = if c0 + bs <= size {
                bs
            } else {
                size - c0
            };
            let next = reflect_column(basis, coeff, c0, w, conj, true, &cur);
            proof {
                if k + 1 < count {
                    assert(starts@[k + 1] == starts@[k as int] + bs);
                }
            }
            cur = next;
            k = k + 1;
        }
        cur
    } else {
        let mut k: usize = count;
        proof {
            lemma_apply_q_len(basis, coeff, conj, end as int, b0);
        }
        while k > 0
            invariant
                k <= count,
                count == starts@.len(),
                bs == coeff.rows(),
                size == coeff.cols(),
                bs >= 1,
                bs * size <= usize::MAX,
                householder_shapes(basis, coeff),
                cur@.len() == basis.rows(),
                b0.len() == basis.rows(),
                starts@.len() > 0 ==> starts@[0] == 0,
                starts@.len() == 0 ==> end == 0,
                forall|i: int| 0 <= i < starts@.len() ==> #[trigger] starts@[i] < size,
                forall|i: int| 0 <= i && i + 1 < starts@.len() ==> #[trigger] starts@[i + 1] == starts@[i] + bs,
                starts@.len() > 0 ==> end == starts@[starts@.len() - 1] + bs,
                end >= size,
                cur@ == apply_q(basis, coeff, conj, if k < count { starts@[k as int] as int } else { end as int }, b0),
            decreases k,
        {
            k = k - 1;
            let c0 = starts[k];
            assert(c0 + bs <= usize::MAX) by (nonlinear_arith)
                requires
                    c0 < size,
                    bs >= 1,
                    bs * size <= usize::MAX,
            ;
            let w = if c0 + bs <= size {
                bs
            } else {
                size - c0
            };
            proof {
                if k + 1 < count {
                    assert(starts@[k + 1] == starts@[k as int] + bs);
                }
            }
            cur = reflect_column(basis, coeff, c0, w, conj, false, &cur);
        }
        cur
    }
}

/// Replaces each column `b` of `rhs` by `Q·b`, or by `Qᴴ·b` when `adjoint`,
/// with `Q` conjugated by `conj`.
pub fn apply_householder_sequence<T: ComplexField>(basis: &Mat<T>, coeff: &Mat<T>, conj: Conj, adjoint: bool, rhs: &mut Mat<T>)
    requires
        householder_shapes(basis, coeff),
        old(rhs).rows() == basis.rows(),
    ensures
        final(rhs).rows() == old(rhs).rows(),
        final(rhs).cols() == old(rhs).cols(),
        forall|i: int, j: int|
            0 <= i < old(rhs).rows() && 0 <= j < old(rhs).cols() ==> #[trigger] final(rhs).at(i, j) == (if adjoint {
                apply_qh(basis, coeff, conj, 0, column(old(rhs), j))
            } else {
                apply_q(basis, coeff, conj, 0, column(old(rhs), j))
            })[i],
{
    let ghost r0 = *rhs;
    let (n, k) = rhs.shape();
    let mut j: usize = 0;
    while j < k
        invariant
            j <= k,
            n == r0.rows(),
            k == r0.cols(),
            n == basis.rows(),
            householder_shapes(basis, coeff),
            rhs.rows() == n,
            rhs.cols() == k,
            forall|p: int, q: int|
                0 <= p < n && 0 <= q < k ==> #[trigger] rhs.at(p, q) == if q < j {
                    (if adjoint {
                        apply_qh(basis, coeff, conj, 0, column(&r0, q))
                    } else {
                        apply_q(basis, coeff, conj, 0, column(&r0, q))
                    })[p]
                } else {
                    r0.at(p, q)
                },
        decreases k - j,
    {
        let b = read_column(rhs, j);
        proof {
            assert(b@ =~= column(&r0, j as int));
            lemma_apply_q_len(basis, coeff, conj, 0, b@);
        }
        let x = apply_sequence_to_column(basis, coeff, conj, adjoint, b);
        write_column(rhs, j, &x);
        j = j + 1;
    }
}

/// Column `j` of `r` extended with zeros to `m` rows.
pub open spec fn padded_column<T: ComplexField>(r: &Mat<T>, m: nat, j: int) -> Seq<T> {
    Seq::new(m, |i: int| if i < r.rows() { r.at(i, j) } else { T::zero_spec() })
}

/// `Q·[R; 0]`: the upper factor `r` extended with zero rows to the height
/// of `basis`, multiplied by the implicit `Q`.
pub fn q_times_upper<T: ComplexField>(basis: &Mat<T>, coeff: &Mat<T>, r: &Mat<T>) -> (out: Mat<T>)
    requires
        householder_shapes(basis, coeff),
        r.rows() <= basis.rows(),
        basis.rows() * r.cols() <= usize::MAX,
    ensures
        out.rows() == basis.rows(),
        out.cols() == r.cols(),
        forall|i: int, j: int|
            0 <= i < basis.rows() && 0 <= j < r.cols() ==> #[trigger] out.at(i, j)
                == apply_q(basis, coeff, Conj::No, 0, padded_column(r, basis.rows(), j))[i],
{
    let m = basis.nrows();
    let (rows, n) = r.shape();
    let mut out = Mat::<T>::zeros(m, n);
    let mut j: usize = 0;
    while j < n
        invariant
            j <= n,
            m == basis.rows(),
            rows == r.rows(),
            n == r.cols(),
            rows <= m,
            out.rows() == m,
            out.cols() == n,
            forall|p: int, q: int| 0 <= p < m && 0 <= q < n ==> #[trigger] out.at(p, q) == if q < j {
                padded_column(r, m as nat, q)[p]
            } else {
                T::zero_spec()
            },
        decreases n - j,
    {
        let mut i: usize = 0;
        while i < rows
            invariant
                j < n,
                i <= rows,
                m == basis.rows(),
                rows == r.rows(),
                n == r.cols(),
                rows <= m,
                out.rows() == m,
                out.cols() == n,
                forall|p: int, q: int| 0 <= p < m && 0 <= q < n ==> #[trigger] out.at(p, q) == if q < j || (q == j && p < i) {
                    padded_column(r, m as nat, q)[p]
                } else {
                    T::zero_spec()
                },
            decreases rows - i,
        {
            out.write(i, j, r.read(i, j));
            i = i + 1;
        }
        j = j + 1;
    }
    let ghost before = out;
    apply_householder_sequence(basis, coeff, Conj::No, false, &mut out);
    proof {
        assert forall|q: int| 0 <= q < n implies #[trigger] column(&before, q) == padded_column(r, m as nat, q) by {
            lemma_column_is(&before, q, padded_column(r, m as nat, q));
        }
    }
    out
}

} // verus!
