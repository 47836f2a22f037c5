use faer::mat::Mat;
use faer::perm::{is_valid_perm, Perm};
use faer::scalar::{Complex, ComplexField};
use faer::solvers::{
    Cholesky, ColPivQr, Conj, DenseSolveCore, FullPivLu, Lblt, Ldlt, PartialPivLu, Qr, ShapeCore,
    SolveCore,
};
use faer::spectral::{Eigen, SelfAdjointEigen, Svd};
use faer::triangular::{lower_working_copy, make_self_adjoint, split_lu, Side};

fn mat_from_rows(rows: &[&[i64]]) -> Mat<i64> {
    let m = rows.len();
    let n = if m == 0 { 0 } else { rows[0].len() };
    let mut data = Vec::new();
    for j in 0..n {
        for i in 0..m {
            data.push(rows[i][j]);
        }
    }
    Mat::from_column_major(m, n, data)
}

fn rows_of<T: Copy>(a: &Mat<T>) -> Vec<Vec<T>> {
    let mut out = Vec::new();
    for i in 0..a.nrows() {
        let mut row = Vec::new();
        for j in 0..a.ncols() {
            row.push(a.read(i, j));
        }
        out.push(row);
    }
    out
}

#[test]
fn partial_piv_lu_of_swap_matrix() {
    // The kernel leaves the identity in place with the rows swapped.
    let lu = mat_from_rows(&[&[1, 0], &[0, 1]]);
    let f = PartialPivLu::from_factored(lu, vec![1, 0], vec![1, 0]);
    assert_eq!(rows_of(f.L()), vec![vec![1, 0], vec![0, 1]]);
    assert_eq!(rows_of(f.U()), vec![vec![1, 0], vec![0, 1]]);
    assert_eq!(f.P().forward(), &[1, 0]);
    assert_eq!(f.P().backward(), &[1, 0]);
    assert_eq!((f.nrows(), f.ncols()), (2, 2));
}

#[test]
fn split_tall_matrix() {
    let lu = mat_from_rows(&[&[1, 2], &[3, 4], &[5, 6]]);
    let (l, u) = split_lu(lu);
    assert_eq!(rows_of(&l), vec![vec![1, 0], vec![3, 1], vec![5, 6]]);
    assert_eq!(rows_of(&u), vec![vec![1, 2], vec![0, 4]]);
}

#[test]
fn split_wide_matrix() {
    let lu = mat_from_rows(&[&[1, 2, 3], &[4, 5, 6]]);
    let (l, u) = split_lu(lu);
    assert_eq!(rows_of(&l), vec![vec![1, 0], vec![4, 1]]);
    assert_eq!(rows_of(&u), vec![vec![1, 2, 3], vec![0, 5, 6]]);
}

#[test]
fn split_empty_matrix() {
    let (l, u) = split_lu(Mat::<i64>::zeros(0, 3));
    assert_eq!((l.nrows(), l.ncols()), (0, 0));
    assert_eq!((u.nrows(), u.ncols()), (0, 3));
}

#[test]
fn full_piv_lu_keeps_both_permutations() {
    let lu = mat_from_rows(&[&[7, 8], &[9, 10]]);
    let f = FullPivLu::from_factored(lu, vec![0, 1], vec![0, 1], vec![1, 0], vec![1, 0]);
    assert_eq!(rows_of(f.L()), vec![vec![1, 0], vec![9, 1]]);
    assert_eq!(rows_of(f.U()), vec![vec![7, 8], vec![0, 10]]);
    assert_eq!(f.P().forward(), &[0, 1]);
    assert_eq!(f.Q().forward(), &[1, 0]);
}

#[test]
fn qr_separates_householder_basis_and_r() {
    let qr = mat_from_rows(&[&[2, 3], &[4, 5], &[6, 7]]);
    let coeff = mat_from_rows(&[&[1, 1]]);
    let f = Qr::from_factored(qr, coeff);
    assert_eq!(rows_of(f.Q_basis()), vec![vec![1, 0], vec![4, 1], vec![6, 7]]);
    assert_eq!(rows_of(f.R()), vec![vec![2, 3], vec![0, 5]]);
    assert_eq!(rows_of(f.Q_coeff()), vec![vec![1, 1]]);
    assert_eq!((f.nrows(), f.ncols()), (3, 2));

    let qr = mat_from_rows(&[&[2, 3], &[4, 5]]);
    let coeff = mat_from_rows(&[&[1, 1]]);
    let f = ColPivQr::from_factored(qr, coeff, vec![1, 0], vec![1, 0]);
    assert_eq!(rows_of(f.R()), vec![vec![2, 3], vec![0, 5]]);
    assert_eq!(f.P().forward(), &[1, 0]);
}

#[test]
fn cholesky_clears_upper_triangle() {
    let a = mat_from_rows(&[&[4, 1], &[1, 3]]);
    let work = lower_working_copy(&a, Side::Lower);
    assert_eq!(rows_of(&work), vec![vec![4, 0], vec![1, 3]]);
    let f = Cholesky::from_factored(mat_from_rows(&[&[2, 9], &[1, 5]]));
    assert_eq!(rows_of(f.L()), vec![vec![2, 0], vec![1, 5]]);
    assert_eq!((f.nrows(), f.ncols()), (2, 2));
}

#[test]
fn ldlt_and_lblt_take_diagonal_out() {
    let f = Ldlt::from_factored(mat_from_rows(&[&[2, 9], &[3, 5]]));
    assert_eq!(rows_of(f.L()), vec![vec![1, 0], vec![3, 1]]);
    assert_eq!(f.D(), &[2, 5]);

    let f = Lblt::from_factored(mat_from_rows(&[&[2, 9], &[3, 5]]), vec![0, 0], vec![1, 0], vec![1, 0]);
    assert_eq!(rows_of(f.L()), vec![vec![1, 0], vec![3, 1]]);
    assert_eq!(f.B_diag(), &[2, 5]);
    assert_eq!(f.B_subdiag(), &[0, 0]);
    assert_eq!(f.P().forward(), &[1, 0]);
}

#[test]
fn upper_side_reads_adjoint() {
    let z = |re: i64, im: i64| Complex { re, im };
    let data = vec![z(2, 0), z(7, 7), z(0, 1), z(2, 0)];
    let a = Mat::from_column_major(2, 2, data);
    let work = lower_working_copy(&a, Side::Upper);
    assert_eq!(work.read(1, 0), z(0, -1));
    assert_eq!(work.read(0, 1), z(0, 0));
    assert_eq!(work.read(1, 1), z(2, 0));
}

#[test]
fn self_adjoint_from_lower_triangle() {
    let z = |re: i64, im: i64| Complex { re, im };
    let data = vec![z(2, 5), z(0, -1), z(9, 9), z(2, -3)];
    let mut a = Mat::from_column_major(2, 2, data);
    make_self_adjoint(&mut a);
    assert_eq!(a.read(0, 0), z(2, 0));
    assert_eq!(a.read(1, 1), z(2, 0));
    assert_eq!(a.read(1, 0), z(0, -1));
    assert_eq!(a.read(0, 1), z(0, 1));
}

#[test]
fn real_eigen_pairs_unpack_to_conjugates() {
    // eigenvalues 5, 1 + 2i, 1 - 2i
    let u_real = mat_from_rows(&[&[1, 2, 3], &[4, 5, 6], &[7, 8, 9]]);
    let f = Eigen::from_real_parts(&[5, 1, 1], &[0, 2, -2], &u_real);
    let z = |re: i64, im: i64| Complex { re, im };
    assert_eq!(f.S(), &[z(5, 0), z(1, 2), z(1, -2)]);
    assert_eq!(f.U().read(0, 0), z(1, 0));
    assert_eq!(f.U().read(0, 1), z(2, 3));
    assert_eq!(f.U().read(0, 2), z(2, -3));
    assert_eq!(f.U().read(2, 1), z(8, 9));
    assert_eq!(f.U().read(2, 2), z(8, -9));
}

#[test]
fn conjugated_input_conjugates_vectors() {
    let z = |re: i64, im: i64| Complex { re, im };
    let u = Mat::from_column_major(1, 1, vec![z(3, 4)]);
    let v = Mat::from_column_major(1, 1, vec![z(0, 1)]);
    let f = Svd::from_factored(u, v, vec![z(5, 0)], Conj::Yes);
    assert_eq!(f.U().read(0, 0), z(3, -4));
    assert_eq!(f.V().read(0, 0), z(0, -1));
    assert_eq!(f.S(), &[z(5, 0)]);

    let u = Mat::from_column_major(1, 1, vec![z(3, 4)]);
    let f = SelfAdjointEigen::from_factored(u, vec![z(1, 0)], Conj::No);
    assert_eq!(f.U().read(0, 0), z(3, 4));
}

#[test]
fn conj_flags_compose_like_xor() {
    assert_eq!(Conj::No.compose(Conj::No), Conj::No);
    assert_eq!(Conj::No.compose(Conj::Yes), Conj::Yes);
    assert_eq!(Conj::Yes.compose(Conj::No), Conj::Yes);
    assert_eq!(Conj::Yes.compose(Conj::Yes), Conj::No);
}

#[test]
fn permutation_checks() {
    assert!(is_valid_perm(&[2, 0, 1], &[1, 2, 0], 3));
    assert!(!is_valid_perm(&[2, 0, 1], &[2, 0, 1], 3));
    assert!(!is_valid_perm(&[0, 0], &[0, 1], 2));
    assert!(!is_valid_perm(&[0], &[0], 2));
    assert!(is_valid_perm(&[], &[], 0));
    let p = Perm::new_checked(vec![2, 0, 1], vec![1, 2, 0], 3);
    assert_eq!(p.len(), 3);
    assert_eq!(p.as_shape(3).forward(), &[2, 0, 1]);
    let q = p.into_inverse();
    assert_eq!(q.as_ref().forward(), &[1, 2, 0]);
    let (f, b) = q.into_arrays();
    assert_eq!((f, b), (vec![1, 2, 0], vec![2, 0, 1]));
}

#[test]
fn integer_scalars_wrap() {
    assert_eq!(i64::MAX.plus(&1), i64::MIN);
    assert_eq!(i64::MIN.negate(), i64::MIN);
    assert_eq!(Complex { re: 1i64, im: 2 }.times(&Complex { re: 3, im: 4 }), Complex { re: -5, im: 10 });
}

#[test]
fn complex_svd_conjugation_flag_matches_conjugated_factors() {
    let z = |re: i64, im: i64| Complex { re, im };
    let u = || Mat::from_column_major(2, 2, vec![z(0, 1), z(0, 0), z(0, 0), z(1, 0)]);
    let v = || Mat::from_column_major(2, 2, vec![z(1, 0), z(0, 0), z(0, 0), z(0, -1)]);
    let plain = Svd::from_factored(u(), v(), vec![z(1, 0), z(-1, 0)], Conj::No);
    let conjugated = Svd::from_factored(u(), v(), vec![z(1, 0), z(-1, 0)], Conj::Yes);
    let rhs = || Mat::from_column_major(2, 1, vec![z(2, 3), z(-4, 5)]);
    let mut x = rhs();
    let mut y = rhs();
    conjugated.solve_in_place_with_conj(Conj::No, &mut x);
    plain.solve_in_place_with_conj(Conj::Yes, &mut y);
    assert_eq!((x.read(0, 0), x.read(1, 0)), (y.read(0, 0), y.read(1, 0)));
    // U = diag(i, 1), V = diag(1, -i), S = diag(1, -1):
    // conj(V)·S⁻¹·Uᵀ·b = (i·(2 + 3i), -i·(-4 + 5i)) = (-3 + 2i, 5 + 4i)
    assert_eq!(y.read(0, 0), z(-3, 2));
    assert_eq!(y.read(1, 0), z(5, 4));
}

#[test]
fn upper_side_flips_eigenvector_conjugation() {
    assert_eq!(SelfAdjointEigen::<i64>::effective_conj(Conj::No, Side::Lower), Conj::No);
    assert_eq!(SelfAdjointEigen::<i64>::effective_conj(Conj::No, Side::Upper), Conj::Yes);
    assert_eq!(SelfAdjointEigen::<i64>::effective_conj(Conj::Yes, Side::Upper), Conj::No);
    assert_eq!(SelfAdjointEigen::<i64>::effective_conj(Conj::Yes, Side::Lower), Conj::Yes);
}

#[test]
fn complex_cholesky_reconstruct_is_exactly_self_adjoint() {
    let z = |re: i64, im: i64| Complex { re, im };
    // L = [[2, 0], [1 - i, 3]], with a stray entry above the diagonal.
    let factored = Mat::from_column_major(2, 2, vec![z(2, 0), z(1, -1), z(5, 5), z(3, 0)]);
    let f = Cholesky::from_factored(factored);
    // L·Lᴴ = [[4, 2 + 2i], [2 - 2i, 11]]
    let a = DenseSolveCore::reconstruct(&f);
    assert_eq!(a.read(0, 0), z(4, 0));
    assert_eq!(a.read(1, 0), z(2, -2));
    assert_eq!(a.read(0, 1), z(2, 2));
    assert_eq!(a.read(1, 1), z(11, 0));
    for i in 0..2 {
        for j in 0..2 {
            assert_eq!(a.read(i, j), a.read(j, i).conj());
        }
        assert_eq!(a.read(i, i).im, 0);
    }
}

#[test]
fn reciprocals_are_exact_where_they_exist() {
    assert_eq!(1i64.recip(), 1);
    assert_eq!((-1i64).recip(), -1);
    assert_eq!(2i64.recip(), 0);
    assert_eq!(0i64.recip(), 0);
    // 1 / i = -i
    assert_eq!(Complex { re: 0i64, im: 1 }.recip(), Complex { re: 0, im: -1 });
}

#[test]
fn conjugated_view_conjugates_eigenvalues() {
    let z = |re: i64, im: i64| Complex { re, im };
    // [[i]] seen through a conjugated view stands for [[-i]].
    let f = Eigen::from_factored(Mat::from_column_major(1, 1, vec![z(1, 0)]), vec![z(0, 1)], Conj::Yes);
    assert_eq!(f.S(), &[z(0, -1)]);
    let u = Mat::from_column_major(2, 2, vec![z(1, 2), z(0, 0), z(0, 0), z(3, -4)]);
    let f = Eigen::from_factored(u, vec![z(5, 6), z(-7, 8)], Conj::Yes);
    assert_eq!(f.S(), &[z(5, -6), z(-7, -8)]);
    assert_eq!(f.U().read(0, 0), z(1, -2));
    assert_eq!(f.U().read(1, 1), z(3, 4));
    let u = Mat::from_column_major(1, 1, vec![z(1, 2)]);
    let f = Eigen::from_factored(u, vec![z(5, 6)], Conj::No);
    assert_eq!(f.S(), &[z(5, 6)]);
    assert_eq!(f.U().read(0, 0), z(1, 2));
}

#[test]
fn bunch_kaufman_blocks_follow_the_subdiagonal() {
    // A 2×2 block on rows 0 and 1, then a 1×1 block.
    let l = mat_from_rows(&[&[2, 0, 0], &[1, 3, 0], &[0, 0, 4]]);
    let f = Lblt::from_factored(l, vec![5, 0, 0], vec![0, 1, 2], vec![0, 1, 2]);
    assert_eq!(f.B_diag(), &[2, 3, 4]);
    assert_eq!(f.B_subdiag(), &[5, 0, 0]);
}
