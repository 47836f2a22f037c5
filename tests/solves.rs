use faer::mat::Mat;
use faer::product::matmul;
use faer::substitution::solve_triangular_in_place;
use faer::solvers::{
    Cholesky, Conj, DenseSolveCore, FullPivLu, Ldlt, PartialPivLu, SolveCore, SolveLstsqCore,
};

fn from_rows(rows: &[&[i64]]) -> Mat<i64> {
    let m = rows.len();
    let n = if m == 0 { 0 } else { rows[0].len() };
    let mut data = Vec::new();
    for j in 0..n {
        for i in 0..m {
            data.push(rows[i][j]);
        }
    }
    Mat::from_column_major(m, n, data)
}

fn to_rows(a: &Mat<i64>) -> Vec<Vec<i64>> {
    (0..a.nrows()).map(|i| (0..a.ncols()).map(|j| a.read(i, j)).collect()).collect()
}

fn times(a: &Mat<i64>, b: &Mat<i64>) -> Mat<i64> {
    matmul(a, false, Conj::No, b, false, Conj::No, a.nrows(), b.ncols(), a.ncols())
}

fn transposed_times(a: &Mat<i64>, b: &Mat<i64>) -> Mat<i64> {
    matmul(a, true, Conj::No, b, false, Conj::No, a.ncols(), b.ncols(), a.nrows())
}

fn check_round_trips<F: DenseSolveCore<i64>>(f: &F, a: &[&[i64]], a_inv: &[&[i64]]) {
    let a = from_rows(a);
    assert_eq!(to_rows(&f.reconstruct()), to_rows(&a));
    let inv = f.inverse();
    assert_eq!(to_rows(&inv), to_rows(&from_rows(a_inv)));
    assert_eq!(to_rows(&times(&inv, &a)), vec![vec![1, 0], vec![0, 1]]);

    let b = from_rows(&[&[3, -1], &[4, 7]]);
    let mut rhs = times(&a, &b);
    f.solve_in_place_with_conj(Conj::No, &mut rhs);
    assert_eq!(to_rows(&rhs), to_rows(&b));

    let mut rhs = transposed_times(&a, &b);
    f.solve_transpose_in_place_with_conj(Conj::No, &mut rhs);
    assert_eq!(to_rows(&rhs), to_rows(&b));
}

#[test]
fn cholesky_solves_and_inverts() {
    let f = Cholesky::from_factored(from_rows(&[&[1, 0], &[2, -1]]));
    check_round_trips(&f, &[&[1, 2], &[2, 5]], &[&[5, -2], &[-2, 1]]);
}

#[test]
fn ldlt_solves_and_inverts() {
    let f = Ldlt::from_factored(from_rows(&[&[1, 0], &[3, -1]]));
    check_round_trips(&f, &[&[1, 3], &[3, 8]], &[&[-8, 3], &[3, -1]]);
}

#[test]
fn partial_piv_lu_solves_and_inverts() {
    let f = PartialPivLu::from_factored(from_rows(&[&[1, 3], &[2, -1]]), vec![1, 0], vec![1, 0]);
    assert_eq!(to_rows(&times(f.L(), f.U())), vec![vec![1, 3], vec![2, 5]]);
    check_round_trips(&f, &[&[2, 5], &[1, 3]], &[&[3, -5], &[-1, 2]]);
}

#[test]
fn full_piv_lu_solves_and_inverts() {
    let f = FullPivLu::from_factored(from_rows(&[&[1, 3], &[2, -1]]), vec![0, 1], vec![0, 1], vec![1, 0], vec![1, 0]);
    check_round_trips(&f, &[&[3, 1], &[5, 2]], &[&[2, -1], &[-5, 3]]);
}

#[test]
fn full_piv_lu_with_both_permutations() {
    let f = FullPivLu::from_factored(from_rows(&[&[1, 3], &[2, -1]]), vec![1, 0], vec![1, 0], vec![1, 0], vec![1, 0]);
    // P·L·U·Qᵀ with L·U = [[1, 3], [2, 5]]: swap rows, then columns.
    check_round_trips(&f, &[&[5, 2], &[3, 1]], &[&[-1, 2], &[3, -5]]);
}

#[test]
fn identity_factorizations_of_size_zero() {
    let f = Cholesky::from_factored(Mat::<i64>::zeros(0, 0));
    assert_eq!(f.reconstruct().nrows(), 0);
    assert_eq!(f.inverse().ncols(), 0);
}

#[test]
fn lblt_solves_through_two_by_two_block() {
    let f = faer::solvers::Lblt::from_factored(from_rows(&[&[2, 9], &[1, 1]]), vec![1, 0], vec![0, 1], vec![0, 1]);
    check_round_trips(&f, &[&[2, 3], &[3, 5]], &[&[5, -3], &[-3, 2]]);
}

#[test]
fn lblt_solves_with_pivoting_and_one_by_one_blocks() {
    let f = faer::solvers::Lblt::from_factored(from_rows(&[&[1, 0], &[2, -1]]), vec![0, 0], vec![1, 0], vec![1, 0]);
    // L·B·Lᴴ = [[1, 2], [2, 3]], rows and columns swapped.
    check_round_trips(&f, &[&[3, 2], &[2, 1]], &[&[-1, 2], &[2, -3]]);
}

// Q = H₀ with v₀ = (1, 1) and τ₀ = 1: the reflection [[0, -1], [-1, 0]].
// The second reflector has τ₁ = 0 and acts as the identity.
fn square_qr_parts() -> (Mat<i64>, Mat<i64>) {
    (from_rows(&[&[1, 3], &[1, -1]]), from_rows(&[&[1, 0]]))
}

#[test]
fn qr_solves_and_inverts() {
    let (qr, coeff) = square_qr_parts();
    let f = faer::solvers::Qr::from_factored(qr, coeff);
    check_round_trips(&f, &[&[0, 1], &[-1, -3]], &[&[-3, -1], &[1, 0]]);
}

#[test]
fn col_piv_qr_solves_and_inverts() {
    let (qr, coeff) = square_qr_parts();
    let f = faer::solvers::ColPivQr::from_factored(qr, coeff, vec![1, 0], vec![1, 0]);
    check_round_trips(&f, &[&[1, 0], &[-3, -1]], &[&[1, 0], &[-3, -1]]);
}

fn tall_qr_parts() -> (Mat<i64>, Mat<i64>) {
    (from_rows(&[&[1, 2], &[1, 1], &[0, 0]]), from_rows(&[&[1, 0]]))
}

#[test]
fn qr_least_squares_on_tall_matrix() {
    let (qr, coeff) = tall_qr_parts();
    let f = faer::solvers::Qr::from_factored(qr, coeff);
    assert_eq!(to_rows(&f.reconstruct()), vec![vec![0, -1], vec![-1, -2], vec![0, 0]]);
    let mut rhs = from_rows(&[&[-4], &[-11], &[7]]);
    f.solve_lstsq_in_place_with_conj(Conj::No, &mut rhs);
    assert_eq!(to_rows(&rhs), vec![vec![3], vec![4], vec![7]]);

    let (qr, coeff) = tall_qr_parts();
    let f = faer::solvers::ColPivQr::from_factored(qr, coeff, vec![1, 0], vec![1, 0]);
    assert_eq!(to_rows(&f.reconstruct()), vec![vec![-1, 0], vec![-2, -1], vec![0, 0]]);
    let mut rhs = from_rows(&[&[-4], &[-11], &[7]]);
    f.solve_lstsq_in_place_with_conj(Conj::No, &mut rhs);
    assert_eq!(to_rows(&rhs), vec![vec![4], vec![3], vec![7]]);
}

#[test]
fn col_pivoting_reconstruct_permutes_columns() {
    let (qr, coeff) = tall_qr_parts();
    let f = faer::solvers::Qr::from_factored(qr, coeff);
    let p = faer::perm::Perm::new_checked(vec![1, 0], vec![1, 0], 2);
    let a = faer::col_pivoting::reconstruct(f.Q_basis(), f.Q_coeff(), f.R(), p.as_ref());
    assert_eq!(to_rows(&a), vec![vec![-1, 0], vec![-2, -1], vec![0, 0]]);
}

#[test]
fn triangular_substitution_is_exact() {
    let l = from_rows(&[&[1, 0, 0], &[4, 1, 0], &[-7, 5, 1]]);
    let b = from_rows(&[&[3, 1], &[9, -2], &[-4, 8]]);
    let mut x = from_rows(&[&[3, 1], &[9, -2], &[-4, 8]]);
    solve_triangular_in_place(&l, false, Conj::No, true, true, &mut x);
    assert_eq!(to_rows(&times(&l, &x)), to_rows(&b));

    let mut y = from_rows(&[&[3, 1], &[9, -2], &[-4, 8]]);
    solve_triangular_in_place(&l, true, Conj::No, true, false, &mut y);
    assert_eq!(to_rows(&transposed_times(&l, &y)), to_rows(&b));

    // Pivots ±1 are invertible in the integers.
    let u = from_rows(&[&[-1, 2, 3], &[0, 1, -4], &[0, 0, -1]]);
    let mut z = from_rows(&[&[3, 1], &[9, -2], &[-4, 8]]);
    solve_triangular_in_place(&u, false, Conj::No, false, false, &mut z);
    assert_eq!(to_rows(&times(&u, &z)), to_rows(&b));
}
