use faer::mat::Mat;
use faer::product::matmul;
use faer::solvers::{
    Cholesky, Conj, DenseSolveCore, FullPivLu, Lblt, Ldlt, PartialPivLu, SolveCore,
    SolveLstsqCore,
};
use faer::spectral::{SelfAdjointEigen, Svd};

fn from_rows(rows: &[&[i64]]) -> Mat<i64> {
    let m = rows.len();
    let n = if m == 0 { 0 } else { rows[0].len() };
    let mut data = Vec::new();
    for j in 0..n {
        for i in 0..m {
            data.push(rows[i][j]);
        }
    }
    Mat::from_column_major(m, n, data)
}

fn to_rows(a: &Mat<i64>) -> Vec<Vec<i64>> {
    (0..a.nrows()).map(|i| (0..a.ncols()).map(|j| a.read(i, j)).collect()).collect()
}

fn times(a: &Mat<i64>, b: &Mat<i64>) -> Mat<i64> {
    matmul(a, false, Conj::No, b, false, Conj::No, a.nrows(), b.ncols(), a.ncols())
}

fn transposed(a: &Mat<i64>) -> Mat<i64> {
    let mut data = Vec::new();
    for i in 0..a.nrows() {
        for j in 0..a.ncols() {
            data.push(a.read(i, j));
        }
    }
    Mat::from_column_major(a.ncols(), a.nrows(), data)
}

#[test]
fn matmul_of_small_matrices() {
    let a = from_rows(&[&[1, 2], &[3, 4]]);
    let b = from_rows(&[&[5, 6], &[7, 8]]);
    assert_eq!(to_rows(&times(&a, &b)), vec![vec![19, 22], vec![43, 50]]);
    let at_b = matmul(&a, true, Conj::No, &b, false, Conj::No, 2, 2, 2);
    assert_eq!(to_rows(&at_b), vec![vec![26, 30], vec![38, 44]]);
}

#[test]
fn cholesky_reconstruct_is_l_times_l_adjoint() {
    let f = Cholesky::from_factored(from_rows(&[&[2, 0], &[1, 3]]));
    assert_eq!(to_rows(&f.reconstruct()), vec![vec![4, 2], vec![2, 10]]);
}

#[test]
fn ldlt_reconstruct_is_l_d_l_adjoint() {
    let f = Ldlt::from_factored(from_rows(&[&[2, 0], &[3, 5]]));
    assert_eq!(to_rows(&f.reconstruct()), vec![vec![2, 6], vec![6, 23]]);
}

#[test]
fn lblt_reconstruct_uses_blocks_and_permutation() {
    let identity = from_rows(&[&[1, 0], &[0, 2]]);
    let f = Lblt::from_factored(identity, vec![3, 0], vec![0, 1], vec![0, 1]);
    assert_eq!(to_rows(&f.reconstruct()), vec![vec![1, 3], vec![3, 2]]);
    let identity = from_rows(&[&[1, 0], &[0, 2]]);
    let f = Lblt::from_factored(identity, vec![3, 0], vec![1, 0], vec![1, 0]);
    assert_eq!(to_rows(&f.reconstruct()), vec![vec![2, 3], vec![3, 1]]);
}

#[test]
fn partial_piv_lu_reconstruct_applies_row_permutation() {
    let f = PartialPivLu::from_factored(from_rows(&[&[1, 2], &[3, 4]]), vec![1, 0], vec![1, 0]);
    assert_eq!(to_rows(&times(f.L(), f.U())), vec![vec![1, 2], vec![3, 10]]);
    assert_eq!(to_rows(&f.reconstruct()), vec![vec![3, 10], vec![1, 2]]);
}

#[test]
fn full_piv_lu_reconstruct_applies_both_permutations() {
    let f = FullPivLu::from_factored(from_rows(&[&[1, 2], &[3, 4]]), vec![0, 1], vec![0, 1], vec![1, 0], vec![1, 0]);
    assert_eq!(to_rows(&f.reconstruct()), vec![vec![2, 1], vec![10, 3]]);
}

fn rotation_svd() -> Svd<i64> {
    // A = U·S·Vᴴ = [[0, -1], [1, 0]]
    let u = from_rows(&[&[0, 1], &[1, 0]]);
    let v = from_rows(&[&[1, 0], &[0, 1]]);
    Svd::from_factored(u, v, vec![1, -1], Conj::No)
}

#[test]
fn svd_round_trips() {
    let f = rotation_svd();
    let a = f.reconstruct();
    assert_eq!(to_rows(&a), vec![vec![0, -1], vec![1, 0]]);

    let inv = f.inverse();
    assert_eq!(to_rows(&inv), vec![vec![0, 1], vec![-1, 0]]);
    assert_eq!(to_rows(&times(&inv, &a)), vec![vec![1, 0], vec![0, 1]]);

    let b = from_rows(&[&[5, 1], &[7, -2]]);
    let mut rhs = times(&a, &b);
    f.solve_in_place_with_conj(Conj::No, &mut rhs);
    assert_eq!(to_rows(&rhs), to_rows(&b));

    let mut rhs = times(&transposed(&a), &b);
    f.solve_transpose_in_place_with_conj(Conj::No, &mut rhs);
    assert_eq!(to_rows(&rhs), to_rows(&b));
}

#[test]
fn svd_least_squares_fills_leading_rows() {
    let u = from_rows(&[&[1, 0, 0], &[0, 1, 0], &[0, 0, 1]]);
    let v = from_rows(&[&[1, 0], &[0, 1]]);
    let f = Svd::from_factored(u, v, vec![1, 1], Conj::No);
    let mut rhs = from_rows(&[&[1], &[2], &[9]]);
    f.solve_lstsq_in_place_with_conj(Conj::No, &mut rhs);
    assert_eq!(to_rows(&rhs), vec![vec![1], vec![2], vec![9]]);

    let u = from_rows(&[&[0, 1, 0], &[1, 0, 0], &[0, 0, 1]]);
    let v = from_rows(&[&[1, 0], &[0, 1]]);
    let f = Svd::from_factored(u, v, vec![1, -1], Conj::No);
    let mut rhs = from_rows(&[&[4], &[6], &[8]]);
    f.solve_lstsq_in_place_with_conj(Conj::No, &mut rhs);
    assert_eq!(to_rows(&rhs), vec![vec![6], vec![-4], vec![8]]);
}

#[test]
fn self_adjoint_eigen_round_trips() {
    let u = from_rows(&[&[0, 1], &[1, 0]]);
    let f = SelfAdjointEigen::from_factored(u, vec![1, -1], Conj::No);
    let a = f.reconstruct();
    assert_eq!(to_rows(&a), vec![vec![-1, 0], vec![0, 1]]);
    assert_eq!(to_rows(&f.inverse()), vec![vec![-1, 0], vec![0, 1]]);

    let mut rhs = from_rows(&[&[3], &[4]]);
    f.solve_in_place_with_conj(Conj::No, &mut rhs);
    assert_eq!(to_rows(&rhs), vec![vec![-3], vec![4]]);

    let mut rhs = from_rows(&[&[3], &[4]]);
    f.solve_transpose_in_place_with_conj(Conj::No, &mut rhs);
    assert_eq!(to_rows(&rhs), vec![vec![-3], vec![4]]);
}
