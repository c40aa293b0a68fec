use densemat::linalg::{gemm_scalar, EuclideanNorm, Mat, MatBuf, Norm};
use densemat::Error;
use densemat::number::Sqrt;
use densemat::Omega;

fn mat2x2(a: i64, b: i64, c: i64, d: i64) -> MatBuf<i64> {
    let mut m = MatBuf::from_vec(vec![a, b, c, d]);
    m.reshape([2, 2]);
    m
}

#[test]
fn multiply_two_by_two() {
    let a = mat2x2(1, 2, 3, 4);
    let b = mat2x2(5, 6, 7, 8);
    let c = a.matmul(&b).unwrap();
    assert_eq!(c, mat2x2(19, 22, 43, 50));
}

#[test]
fn add_two_by_two() {
    let a = mat2x2(1, 2, 3, 4);
    let b = mat2x2(5, 6, 7, 8);
    let c = a.add(&b).unwrap();
    assert_eq!(c, mat2x2(6, 8, 10, 12));
}

#[test]
fn sub_and_assign_forms() {
    let a = mat2x2(5, 6, 7, 8);
    let b = mat2x2(1, 2, 3, 4);
    assert_eq!(a.sub(&b).unwrap(), mat2x2(4, 4, 4, 4));
    let mut c = mat2x2(1, 1, 1, 1);
    c.add_assign(&b).unwrap();
    assert_eq!(c, mat2x2(2, 3, 4, 5));
    c.sub_assign(&b).unwrap();
    assert_eq!(c, mat2x2(1, 1, 1, 1));
}

#[test]
fn add_commutes() {
    let a = mat2x2(1, -2, 3, -4);
    let b = mat2x2(10, 20, -30, 40);
    assert_eq!(a.add(&b).unwrap(), b.add(&a).unwrap());
}

#[test]
fn multiply_associates() {
    let a = mat2x2(1, 2, 3, 4);
    let b = mat2x2(5, 6, 7, 8);
    let c = mat2x2(-1, 2, 0, 3);
    let left = a.matmul(&b).unwrap().matmul(&c).unwrap();
    let right = a.matmul(&b.matmul(&c).unwrap()).unwrap();
    assert_eq!(left, right);
}

#[test]
fn multiply_respects_transpose_flag() {
    // (A^T) B read through the flag matches the materialized transpose.
    let mut at = mat2x2(1, 2, 3, 4);
    at.transpose();
    let b = mat2x2(5, 6, 7, 8);
    let c = at.matmul(&b).unwrap();
    let expect = mat2x2(1 * 5 + 3 * 7, 1 * 6 + 3 * 8, 2 * 5 + 4 * 7, 2 * 6 + 4 * 8);
    assert_eq!(c, expect);
}

#[test]
fn shape_mismatch_reported() {
    let a = mat2x2(1, 2, 3, 4);
    let mut v = MatBuf::from_vec(vec![1i64, 2]);
    v.reshape([1, 2]);
    assert_eq!(
        a.add(&v).unwrap_err(),
        Error::ShapeMismatch { expected_rows: 2, expected_cols: 2, actual_rows: 1, actual_cols: 2 }
    );
}

#[test]
fn inner_dimension_mismatch_reported() {
    let mut a = MatBuf::from_vec(vec![1i64, 2, 3, 4, 5, 6]);
    a.reshape([2, 3]);
    let mut b = MatBuf::from_vec(vec![1i64, 2, 3, 4, 5, 6]);
    b.reshape([2, 3]);
    assert_eq!(
        a.matmul(&b).unwrap_err(),
        Error::InnerDimensionMismatch { left_cols: 3, right_rows: 2 }
    );
    let am = a.as_mat();
    let bm = b.as_mat();
    assert!(gemm_scalar(&am, &bm).is_err());
}

#[test]
fn scalar_multiply() {
    let a = mat2x2(1, -2, 3, -4);
    assert_eq!(a.scalar_mul(3), mat2x2(3, -6, 9, -12));
    assert_eq!(a.scalar_mul(1), a);
}

#[test]
fn euclidean_norm_of_row_vector() {
    // The row vector [3, 4] reshaped from flat storage has norm 5.
    let mut v = MatBuf::from_vec(vec![3i64, 4]);
    v.reshape([1, 2]);
    let n = <EuclideanNorm as Norm<MatBuf<i64>, Result<i64, Error>>>::norm(&v);
    assert_eq!(n.unwrap(), 5);
}

#[test]
fn euclidean_norm_forms() {
    let data = vec![2i64, 3, 6];
    let n = <EuclideanNorm as Norm<Vec<i64>, Result<i64, Error>>>::norm(&data);
    assert_eq!(n.unwrap(), 7);
    let m = Mat::new(data.as_slice(), 3, 1);
    let n2 = <EuclideanNorm as Norm<Mat<'_, i64>, Result<i64, Error>>>::norm(&m);
    assert_eq!(n2.unwrap(), 7);
}

#[test]
fn euclidean_norm_of_empty_input() {
    let data: Vec<i64> = Vec::new();
    let n = <EuclideanNorm as Norm<Vec<i64>, Result<i64, Error>>>::norm(&data);
    assert_eq!(n.unwrap_err(), Error::EmptyInput);
}

#[test]
fn norm_reads_physical_storage() {
    // The norm of a transposed matrix is the norm of its backing buffer.
    let mut m = mat2x2(3, 0, 0, 4);
    m.transpose();
    let n = <EuclideanNorm as Norm<MatBuf<i64>, Result<i64, Error>>>::norm(&m);
    assert_eq!(n.unwrap(), 5);
}

#[test]
fn project_onto_observed_scenario() {
    let mut mask = MatBuf::from_vec(vec![true, false, false, true]);
    mask.reshape([2, 2]);
    let y = mat2x2(1, 2, 3, 4);
    let p = mask.p_omega(y, 0).unwrap();
    assert_eq!(p, mat2x2(1, 0, 0, 4));
}

#[test]
fn project_onto_observed_all_true_and_all_false() {
    let y = mat2x2(1, 2, 3, 4);
    let all_true = MatBuf::new_filled(true, [2, 2]);
    assert_eq!(all_true.p_omega(y, 0).unwrap(), mat2x2(1, 2, 3, 4));
    let y2 = mat2x2(1, 2, 3, 4);
    let all_false = MatBuf::new_filled(false, [2, 2]);
    assert_eq!(all_false.p_omega(y2, 0).unwrap(), mat2x2(0, 0, 0, 0));
}

#[test]
fn project_onto_observed_shape_mismatch() {
    let mask = MatBuf::new_filled(true, [1, 2]);
    let y = mat2x2(1, 2, 3, 4);
    assert_eq!(
        mask.p_omega(y, 0).unwrap_err(),
        Error::ShapeMismatch { expected_rows: 1, expected_cols: 2, actual_rows: 2, actual_cols: 2 }
    );
}

#[test]
fn project_onto_norm_ball_inside_ball() {
    // norm([[3],[4]]) = 5 <= 10, so the matrix comes back unchanged.
    let mask = MatBuf::new_filled(true, [2, 1]);
    let m = MatBuf::from_vec(vec![3i64, 4]);
    let p = mask.pi_l_omega(m, 10, 1).unwrap();
    assert_eq!(p, MatBuf::from_vec(vec![3i64, 4]));
}

#[test]
fn project_onto_norm_ball_outside_ball() {
    // norm([[30],[40]]) = 50 > 25: each element x becomes (x * 25) / 50,
    // and the clipped vector [15, 20] has norm exactly 25.
    let mask = MatBuf::new_filled(true, [2, 1]);
    let m = MatBuf::from_vec(vec![30i64, 40]);
    let p = mask.pi_l_omega(m, 25, 1).unwrap();
    assert_eq!(p, MatBuf::from_vec(vec![15i64, 20]));
    let n = <EuclideanNorm as Norm<MatBuf<i64>, Result<i64, Error>>>::norm(&p);
    assert_eq!(n.unwrap(), 25);
}

#[test]
fn project_onto_norm_ball_rounds_toward_zero() {
    // norm([[-30],[41]]) = isqrt(2581) = 50 > 20: (-30 * 20) / 50 = -12
    // and (41 * 20) / 50 = 16, each rounded toward zero.
    let mask = MatBuf::new_filled(true, [2, 1]);
    let m = MatBuf::from_vec(vec![-30i64, 41]);
    let p = mask.pi_l_omega(m, 20, 1).unwrap();
    assert_eq!(p, MatBuf::from_vec(vec![-12i64, 16]));
}

#[test]
fn project_onto_norm_ball_empty_input() {
    let mask = MatBuf::new_filled(true, [0, 0]);
    let m: MatBuf<i64> = MatBuf::new();
    assert_eq!(mask.pi_l_omega(m, 10, 1).unwrap_err(), Error::EmptyInput);
}

#[test]
fn integer_sqrt() {
    assert_eq!(Sqrt::sqrt(0i64), 0);
    assert_eq!(Sqrt::sqrt(24i64), 4);
    assert_eq!(Sqrt::sqrt(25i64), 5);
    assert_eq!(Sqrt::sqrt(26i64), 5);
    assert_eq!(densemat::number::isqrt_i64(i64::MAX), 3037000499);
}
